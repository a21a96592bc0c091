//! Text helpers shared by the rest of the crate: the ordering of names,
//! sorted name sets, whitespace tests and line splitting.
use vstd::prelude::*;

verus! {

// ------------------------------------------------------------------
// Ordering of names
// ------------------------------------------------------------------

/// Lexicographic order on character sequences, comparing characters by
/// their code point. This is the order of `String` (UTF-8 byte order and
/// code point order agree), so it is the order in which a `BTreeMap` or
/// `BTreeSet` keyed by names walks its keys.
pub open spec fn seq_less(a: Seq<char>, b: Seq<char>) -> bool
    decreases a.len(),
{
    if a.len() == 0 {
        b.len() > 0
    } else if b.len() == 0 {
        false
    } else if a[0] == b[0] {
        seq_less(a.drop_first(), b.drop_first())
    } else {
        a[0] < b[0]
    }
}

/// Every element is smaller than every later one: a sorted sequence
/// without repetitions.
pub open spec fn sorted_strict(s: Seq<Seq<char>>) -> bool {
    forall|i: int, j: int| 0 <= i < j < s.len() ==> #[trigger] seq_less(s[i], s[j])
}

/// The views of a sequence of strings.
pub open spec fn views(s: Seq<String>) -> Seq<Seq<char>> {
    s.map_values(|x: String| x@)
}

/// No name comes before itself.
pub proof fn lemma_less_irreflexive(a: Seq<char>)
    ensures
        !seq_less(a, a),
    decreases a.len(),
{
    if a.len() > 0 {
        lemma_less_irreflexive(a.drop_first());
    }
}

/// Of two different names, exactly one comes first.
pub proof fn lemma_less_total(a: Seq<char>, b: Seq<char>)
    ensures
        a != b ==> seq_less(a, b) || seq_less(b, a),
        !(seq_less(a, b) && seq_less(b, a)),
    decreases a.len(),
{
    if a.len() > 0 && b.len() > 0 {
        lemma_less_total(a.drop_first(), b.drop_first());
        if a[0] == b[0] {
            if a.drop_first() == b.drop_first() {
                assert(a =~= seq![a[0]] + a.drop_first());
                assert(b =~= seq![b[0]] + b.drop_first());
            }
        } else {
            assert(a[0] < b[0] || b[0] < a[0]);
        }
    } else if a.len() == 0 && b.len() == 0 {
        assert(a =~= b);
    }
}

/// The order of names is transitive.
pub proof fn lemma_less_transitive(a: Seq<char>, b: Seq<char>, c: Seq<char>)
    requires
        seq_less(a, b),
        seq_less(b, c),
    ensures
        seq_less(a, c),
    decreases a.len(),
{
    if a.len() > 0 && b.len() > 0 && c.len() > 0 {
        if a[0] == b[0] && b[0] == c[0] {
            lemma_less_transitive(a.drop_first(), b.drop_first(), c.drop_first());
        }
    }
}

/// Two strictly sorted sequences with the same elements are equal.
pub proof fn lemma_sorted_strict_unique(a: Seq<Seq<char>>, b: Seq<Seq<char>>)
    requires
        sorted_strict(a),
        sorted_strict(b),
        forall|x: Seq<char>| a.contains(x) <==> b.contains(x),
    ensures
        a == b,
    decreases a.len(),
{
    if a.len() == 0 {
        if b.len() > 0 {
            assert(b.contains(b[0]));
        }
        assert(a =~= b);
    } else if b.len() == 0 {
        assert(a.contains(a[0]));
    } else {
        assert(a.contains(a[0]));
        assert(b.contains(b[0]));
        let k = choose|k: int| 0 <= k < b.len() && b[k] == a[0];
        let k2 = choose|k2: int| 0 <= k2 < a.len() && a[k2] == b[0];
        if k > 0 && k2 > 0 {
            assert(seq_less(b[0], b[k]));
            assert(seq_less(a[0], a[k2]));
            lemma_less_total(a[0], b[0]);
        }
        assert(a[0] == b[0]);
        let ta = a.drop_first();
        let tb = b.drop_first();
        assert forall|x: Seq<char>| ta.contains(x) <==> tb.contains(x) by {
            if ta.contains(x) {
                let i = choose|i: int| 0 <= i < ta.len() && ta[i] == x;
                assert(a[i + 1] == x);
                assert(a.contains(x));
                let j = choose|j: int| 0 <= j < b.len() && b[j] == x;
                if j == 0 {
                    assert(seq_less(a[0], a[i + 1]));
                    lemma_less_irreflexive(x);
                }
                assert(tb[j - 1] == x);
            }
            if tb.contains(x) {
                let i = choose|i: int| 0 <= i < tb.len() && tb[i] == x;
                assert(b[i + 1] == x);
                assert(b.contains(x));
                let j = choose|j: int| 0 <= j < a.len() && a[j] == x;
                if j == 0 {
                    assert(seq_less(b[0], b[i + 1]));
                    lemma_less_irreflexive(x);
                }
                assert(ta[j - 1] == x);
            }
        }
        assert(sorted_strict(ta)) by {
            assert forall|i: int, j: int| 0 <= i < j < ta.len() implies #[trigger] seq_less(ta[i], ta[j]) by {
                assert(seq_less(a[i + 1], a[j + 1]));
            }
        }
        assert(sorted_strict(tb)) by {
            assert forall|i: int, j: int| 0 <= i < j < tb.len() implies #[trigger] seq_less(tb[i], tb[j]) by {
                assert(seq_less(b[i + 1], b[j + 1]));
            }
        }
        lemma_sorted_strict_unique(ta, tb);
        assert(a =~= b) by {
            assert forall|i: int| 0 <= i < a.len() implies a[i] == b[i] by {
                if i > 0 {
                    assert(a[i] == ta[i - 1]);
                    assert(b[i] == tb[i - 1]);
                }
            }
        }
    }
}

/// Equal prefixes can be skipped when comparing.
proof fn lemma_less_skip(a: Seq<char>, b: Seq<char>, i: int)
    requires
        0 <= i <= a.len(),
        i <= b.len(),
        a.take(i) == b.take(i),
    ensures
        seq_less(a, b) == seq_less(a.skip(i), b.skip(i)),
    decreases i,
{
    if i > 0 {
        assert(a[0] == a.take(i)[0]);
        assert(b[0] == b.take(i)[0]);
        assert(a.drop_first().take(i - 1) =~= a.take(i).drop_first());
        assert(b.drop_first().take(i - 1) =~= b.take(i).drop_first());
        lemma_less_skip(a.drop_first(), b.drop_first(), i - 1);
        assert(a.drop_first().skip(i - 1) =~= a.skip(i));
        assert(b.drop_first().skip(i - 1) =~= b.skip(i));
    } else {
        assert(a.skip(0) =~= a);
        assert(b.skip(0) =~= b);
    }
}

/// The outcome of comparing two names.
#[derive(Clone, Copy, Debug, PartialEq, Eq, Structural)]
pub enum Order3 {
    Less,
    Equal,
    Greater,
}

/// The characters of a string, in order.
pub fn chars_of(s: &str) -> (res: Vec<char>)
    ensures
        res@ == s@,
{
    let mut out: Vec<char> = Vec::new();
    for c in it: s.chars()
        invariant
            out@ == it.seq().take(it.index() as int),
    {
        out.push(c);
    }
    out
}

/// Compares two names in the order of `seq_less`.
pub fn compare_strs(a: &str, b: &str) -> (res: Order3)
    ensures
        (res == Order3::Less) <==> seq_less(a@, b@),
        (res == Order3::Equal) <==> a@ == b@,
        (res == Order3::Greater) <==> seq_less(b@, a@),
{
    proof {
        lemma_less_total(a@, b@);
        lemma_less_irreflexive(a@);
    }
    let va = chars_of(a);
    let vb = chars_of(b);
    let mut i: usize = 0;
    while i < va.len() && i < vb.len()
        invariant
            va@ == a@,
            vb@ == b@,
            i <= va.len(),
            i <= vb.len(),
            va@.take(i as int) == vb@.take(i as int),
        decreases va.len() - i,
    {
        if va[i] != vb[i] {
            proof {
                lemma_less_skip(a@, b@, i as int);
                lemma_less_skip(b@, a@, i as int);
                assert(a@.skip(i as int)[0] == va@[i as int]);
                assert(b@.skip(i as int)[0] == vb@[i as int]);
            }
            if va[i] < vb[i] {
                return Order3::Less;
            } else {
                return Order3::Greater;
            }
        }
        assert(va@.take(i + 1) =~= va@.take(i as int).push(va@[i as int]));
        assert(vb@.take(i + 1) =~= vb@.take(i as int).push(vb@[i as int]));
        i = i + 1;
    }
    proof {
        lemma_less_skip(a@, b@, i as int);
        lemma_less_skip(b@, a@, i as int);
    }
    if va.len() == vb.len() {
        assert(a@ =~= va@.take(i as int));
        assert(b@ =~= vb@.take(i as int));
        Order3::Equal
    } else if i == va.len() {
        Order3::Less
    } else {
        Order3::Greater
    }
}

/// Whether two names are equal.
pub fn str_eq(a: &str, b: &str) -> (res: bool)
    ensures
        res == (a@ == b@),
{
    match compare_strs(a, b) {
        Order3::Equal => true,
        _ => false,
    }
}

/// Whether `name` occurs among the first `upto` items.
pub fn listed_before(items: &Vec<String>, upto: usize, name: &str) -> (res: bool)
    requires
        upto <= items.len(),
    ensures
        res == exists|q: int| 0 <= q < upto && items@[q]@ == name@,
{
    let mut j: usize = 0;
    while j < upto
        invariant
            j <= upto,
            upto <= items.len(),
            forall|q: int| 0 <= q < j ==> items@[q]@ != name@,
        decreases upto - j,
    {
        if str_eq(items[j].as_str(), name) {
            return true;
        }
        j = j + 1;
    }
    false
}

// ------------------------------------------------------------------
// Sorted sets of names
// ------------------------------------------------------------------

/// Adds `item` to a strictly sorted vector of names, keeping it strictly
/// sorted; an equal name already present leaves the vector unchanged.
pub fn insert_sorted(set: &mut Vec<String>, item: String)
    requires
        sorted_strict(views(old(set)@)),
    ensures
        sorted_strict(views(final(set)@)),
        views(final(set)@).to_set() == views(old(set)@).to_set().insert(item@),
{
    let ghost old_views = views(set@);
    let mut i: usize = 0;
    while i < set.len()
        invariant
            set@ == old(set)@,
            old_views == views(set@),
            sorted_strict(old_views),
            i <= set.len(),
            forall|k: int| 0 <= k < i ==> seq_less(#[trigger] old_views[k], item@),
        ensures
            i <= set.len(),
            forall|k: int| 0 <= k < i ==> seq_less(#[trigger] old_views[k], item@),
            i < set.len() ==> !seq_less(old_views[i as int], item@),
        decreases set.len() - i,
    {
        match compare_strs(set[i].as_str(), item.as_str()) {
            Order3::Less => {},
            _ => {
                break;
            },
        }
        i = i + 1;
    }
    if i < set.len() && str_eq(set[i].as_str(), item.as_str()) {
        assert(views(set@).to_set().insert(item@) =~= views(set@).to_set()) by {
            assert(old_views[i as int] == item@);
            assert(old_views.contains(item@));
        }
        return;
    }
    proof {
        assert forall|k: int| i <= k < old_views.len() implies seq_less(
            item@,
            #[trigger] old_views[k],
        ) by {
            lemma_less_total(item@, old_views[i as int]);
            if k > i as int {
                assert(seq_less(old_views[i as int], old_views[k]));
                lemma_less_transitive(item@, old_views[i as int], old_views[k]);
            }
        }
    }
    set.insert(i, item);
    proof {
        let nv = views(set@);
        assert(nv =~= old_views.insert(i as int, item@));
        assert forall|a: int, b: int| 0 <= a < b < nv.len() implies #[trigger] seq_less(
            nv[a],
            nv[b],
        ) by {
            if a < i && b < i {
            } else if a < i && b == i {
            } else if a < i && b > i {
                lemma_less_transitive(nv[a], item@, nv[b]);
            } else if a == i {
            } else {
                assert(nv[a] == old_views[a - 1]);
                assert(nv[b] == old_views[b - 1]);
            }
        }
        assert(nv.to_set() =~= old_views.to_set().insert(item@)) by {
            assert forall|x: Seq<char>| nv.to_set().contains(x) implies old_views.to_set().insert(
                x,
            ).contains(x) && (x == item@ || old_views.contains(x)) by {
                let k = choose|k: int| 0 <= k < nv.len() && nv[k] == x;
                if k < i {
                    assert(old_views[k] == x);
                } else if k > i {
                    assert(old_views[k - 1] == x);
                }
            }
            assert forall|x: Seq<char>| old_views.contains(x) implies nv.contains(x) by {
                let k = choose|k: int| 0 <= k < old_views.len() && old_views[k] == x;
                if k < i {
                    assert(nv[k] == x);
                } else {
                    assert(nv[k + 1] == x);
                }
            }
            assert(nv[i as int] == item@);
        }
    }
}

/// The distinct values of `values`, sorted.
pub fn sorted_unique(values: Vec<String>) -> (res: Vec<String>)
    ensures
        sorted_strict(views(res@)),
        views(res@).to_set() == views(values@).to_set(),
{
    let mut out: Vec<String> = Vec::new();
    let mut i: usize = 0;
    while i < values.len()
        invariant
            i <= values.len(),
            sorted_strict(views(out@)),
            views(out@).to_set() == views(values@.take(i as int)).to_set(),
        decreases values.len() - i,
    {
        let v = values[i].clone();
        insert_sorted(&mut out, v);
        proof {
            assert(views(values@.take(i + 1)) =~= views(values@.take(i as int)).push(
                values@[i as int]@,
            ));
            views(values@.take(i as int)).lemma_push_to_set_commute(values@[i as int]@);
        }
        i = i + 1;
    }
    assert(values@.take(i as int) =~= values@);
    out
}

// ------------------------------------------------------------------
// Whitespace and splitting
// ------------------------------------------------------------------

/// The Unicode `White_Space` property.
pub open spec fn is_white_space(c: char) -> bool {
    let n = c as u32;
    (9 <= n <= 13) || n == 32 || n == 0x85 || n == 0xA0 || n == 0x1680 || (0x2000 <= n <= 0x200A)
        || n == 0x2028 || n == 0x2029 || n == 0x202F || n == 0x205F || n == 0x3000
}

/// Whether `c` has the Unicode `White_Space` property, as
/// `char::is_whitespace` answers.
fn char_is_whitespace(c: char) -> (res: bool)
    ensures
        res == is_white_space(c),
{
    let n = c as u32;
    (9 <= n && n <= 13) || n == 32 || n == 0x85 || n == 0xA0 || n == 0x1680 || (0x2000 <= n && n <= 0x200A)
        || n == 0x2028 || n == 0x2029 || n == 0x202F || n == 0x205F || n == 0x3000
}

/// `String::push`: appends one character.
#[verifier::external_body]
pub fn push_char(s: &mut String, c: char)
    ensures
        final(s)@ == old(s)@.push(c),
{
    s.push(c)
}

/// A name is blank when it holds nothing but whitespace
/// (`s.trim().is_empty()`).
pub open spec fn is_blank(s: Seq<char>) -> bool {
    forall|i: int| 0 <= i < s.len() ==> is_white_space(#[trigger] s[i])
}

/// Whether `s` contains a whitespace character.
pub open spec fn has_white_space(s: Seq<char>) -> bool {
    exists|i: int| 0 <= i < s.len() && is_white_space(#[trigger] s[i])
}

/// Whether `s` is blank (`s.trim().is_empty()`).
pub fn blank(s: &str) -> (res: bool)
    ensures
        res == is_blank(s@),
{
    let cs = chars_of(s);
    let mut i: usize = 0;
    while i < cs.len()
        invariant
            cs@ == s@,
            i <= cs.len(),
            forall|k: int| 0 <= k < i ==> is_white_space(#[trigger] s@[k]),
        decreases cs.len() - i,
    {
        if !char_is_whitespace(cs[i]) {
            return false;
        }
        i = i + 1;
    }
    true
}

/// Whether some character of `s` is whitespace
/// (`s.chars().any(char::is_whitespace)`).
pub fn contains_white_space(s: &str) -> (res: bool)
    ensures
        res == has_white_space(s@),
{
    !all_non_white(s)
}

fn all_non_white(s: &str) -> (res: bool)
    ensures
        res == !has_white_space(s@),
{
    let cs = chars_of(s);
    let mut i: usize = 0;
    while i < cs.len()
        invariant
            cs@ == s@,
            i <= cs.len(),
            forall|k: int| 0 <= k < i ==> !is_white_space(#[trigger] s@[k]),
        decreases cs.len() - i,
    {
        if char_is_whitespace(cs[i]) {
            return false;
        }
        i = i + 1;
    }
    true
}

/// `s` without its leading whitespace.
pub open spec fn trim_start(s: Seq<char>) -> Seq<char>
    decreases s.len(),
{
    if s.len() > 0 && is_white_space(s[0]) {
        trim_start(s.drop_first())
    } else {
        s
    }
}

/// `s` without its trailing whitespace.
pub open spec fn trim_end(s: Seq<char>) -> Seq<char>
    decreases s.len(),
{
    if s.len() > 0 && is_white_space(s.last()) {
        trim_end(s.drop_last())
    } else {
        s
    }
}

/// `str::trim`: `s` without leading and trailing whitespace.
pub open spec fn trim(s: Seq<char>) -> Seq<char> {
    trim_end(trim_start(s))
}

/// The pieces of `s` between occurrences of `sep` (`str::split`): one more
/// piece than there are separators, empty pieces included.
pub open spec fn split_on(s: Seq<char>, sep: char) -> Seq<Seq<char>>
    decreases s.len(),
{
    if s.len() == 0 {
        seq![Seq::<char>::empty()]
    } else {
        let pieces = split_on(s.drop_last(), sep);
        if s.last() == sep {
            pieces.push(Seq::<char>::empty())
        } else {
            pieces.update(pieces.len() - 1, pieces.last().push(s.last()))
        }
    }
}

/// Splitting always gives at least one piece.
pub proof fn lemma_split_nonempty(s: Seq<char>, sep: char)
    ensures
        split_on(s, sep).len() >= 1,
    decreases s.len(),
{
    if s.len() > 0 {
        lemma_split_nonempty(s.drop_last(), sep);
    }
}

/// The items joined by `sep`.
pub open spec fn joined(items: Seq<Seq<char>>, sep: Seq<char>) -> Seq<char>
    decreases items.len(),
{
    if items.len() == 0 {
        Seq::empty()
    } else if items.len() == 1 {
        items[0]
    } else {
        joined(items.drop_last(), sep) + sep + items.last()
    }
}

/// `items.join(sep)`.
pub fn join_strings(items: &Vec<String>, sep: &str) -> (res: String)
    ensures
        res@ == joined(views(items@), sep@),
{
    let mut out = String::new();
    let mut i: usize = 0;
    while i < items.len()
        invariant
            i <= items@.len(),
            out@ == joined(views(items@.take(i as int)), sep@),
        decreases items@.len() - i,
    {
        if i > 0 {
            out.append(sep);
        }
        out.append(items[i].as_str());
        proof {
            let t = views(items@.take(i + 1));
            assert(t.drop_last() =~= views(items@.take(i as int)));
            if i == 0 {
                assert(out@ =~= t[0]);
            }
        }
        i = i + 1;
    }
    assert(items@.take(items@.len() as int) =~= items@);
    out
}

proof fn lemma_trim_start_at(s: Seq<char>, a: int)
    requires
        0 <= a <= s.len(),
        forall|i: int| 0 <= i < a ==> is_white_space(#[trigger] s[i]),
        a < s.len() ==> !is_white_space(s[a]),
    ensures
        trim_start(s) == s.skip(a),
    decreases a,
{
    if a == 0 {
        assert(s.skip(0) =~= s);
    } else {
        assert(is_white_space(s[0]));
        let t = s.drop_first();
        assert forall|i: int| 0 <= i < a - 1 implies is_white_space(#[trigger] t[i]) by {
            assert(t[i] == s[i + 1]);
        }
        lemma_trim_start_at(t, a - 1);
        assert(t.skip(a - 1) =~= s.skip(a));
    }
}

proof fn lemma_trim_end_at(s: Seq<char>, b: int)
    requires
        0 <= b <= s.len(),
        forall|i: int| b <= i < s.len() ==> is_white_space(#[trigger] s[i]),
        b > 0 ==> !is_white_space(s[b - 1]),
    ensures
        trim_end(s) == s.take(b),
    decreases s.len() - b,
{
    if b == s.len() {
        assert(s.take(b) =~= s);
    } else {
        assert(is_white_space(s.last()));
        let t = s.drop_last();
        assert forall|i: int| b <= i < t.len() implies is_white_space(#[trigger] t[i]) by {
            assert(t[i] == s[i]);
        }
        lemma_trim_end_at(t, b);
        assert(t.take(b) =~= s.take(b));
    }
}

/// The string of the given characters.
pub fn string_of(cs: &Vec<char>, lo: usize, hi: usize) -> (res: String)
    requires
        lo <= hi <= cs@.len(),
    ensures
        res@ == cs@.subrange(lo as int, hi as int),
{
    let mut out = String::new();
    let mut i: usize = lo;
    while i < hi
        invariant
            lo <= i <= hi,
            hi <= cs@.len(),
            out@ == cs@.subrange(lo as int, i as int),
        decreases hi - i,
    {
        push_char(&mut out, cs[i]);
        assert(cs@.subrange(lo as int, i + 1) =~= cs@.subrange(lo as int, i as int).push(cs@[i as int]));
        i = i + 1;
    }
    out
}

/// `str::trim` on a sequence of characters.
pub fn trimmed(cs: &Vec<char>) -> (res: String)
    ensures
        res@ == trim(cs@),
{
    let n = cs.len();
    let mut a: usize = 0;
    while a < n && char_is_whitespace(cs[a])
        invariant
            n == cs@.len(),
            a <= n,
            forall|i: int| 0 <= i < a ==> is_white_space(#[trigger] cs@[i]),
        decreases n - a,
    {
        a = a + 1;
    }
    proof {
        lemma_trim_start_at(cs@, a as int);
    }
    let mut b: usize = n;
    while b > a && char_is_whitespace(cs[b - 1])
        invariant
            n == cs@.len(),
            a <= b <= n,
            forall|i: int| b <= i < n ==> is_white_space(#[trigger] cs@[i]),
        decreases b,
    {
        b = b - 1;
    }
    proof {
        let t = cs@.skip(a as int);
        assert forall|i: int| b - a <= i < t.len() implies is_white_space(#[trigger] t[i]) by {
            assert(t[i] == cs@[a + i]);
        }
        if b > a {
            assert(t[b - a - 1] == cs@[b - 1]);
        }
        lemma_trim_end_at(t, b - a);
        assert(t.take(b - a) =~= cs@.subrange(a as int, b as int));
    }
    string_of(cs, a, b)
}

/// The trimmed pieces of `text` between line feeds, without the empty ones:
/// `text.lines().map(str::trim).filter(|l| !l.is_empty())`.
pub open spec fn nonempty_lines(text: Seq<char>) -> Seq<Seq<char>> {
    split_on(text, '\n').map_values(|l: Seq<char>| trim(l)).filter(|l: Seq<char>| l.len() > 0)
}

/// The trimmed, non-empty lines of a text, in order.
pub fn trimmed_lines(text: &str) -> (res: Vec<String>)
    ensures
        views(res@) == nonempty_lines(text@),
{
    let cs = chars_of(text);
    let mut out: Vec<String> = Vec::new();
    let mut line: Vec<char> = Vec::new();
    let mut i: usize = 0;
    let ghost f = |l: Seq<char>| trim(l);
    let ghost p = |l: Seq<char>| l.len() > 0;
    assert(split_on(cs@.take(0), '\n') =~= seq![Seq::<char>::empty()]) by {
        assert(cs@.take(0) =~= Seq::<char>::empty());
    }
    assert(line@ =~= Seq::<char>::empty());
    while i < cs.len()
        invariant
            cs@ == text@,
            i <= cs@.len(),
            f == (|l: Seq<char>| trim(l)),
            p == (|l: Seq<char>| l.len() > 0),
            split_on(cs@.take(i as int), '\n').len() >= 1,
            line@ == split_on(cs@.take(i as int), '\n').last(),
            views(out@) == split_on(cs@.take(i as int), '\n').drop_last().map_values(f).filter(p),
        decreases cs@.len() - i,
    {
        let c = cs[i];
        let ghost pieces = split_on(cs@.take(i as int), '\n');
        proof {
            assert(cs@.take(i + 1).drop_last() =~= cs@.take(i as int));
            assert(cs@.take(i + 1).last() == c);
        }
        if c == '\n' {
            let t = trimmed(&line);
            proof {
                let np = split_on(cs@.take(i + 1), '\n');
                assert(np == pieces.push(Seq::<char>::empty()));
                assert(np.drop_last() =~= pieces);
                assert(pieces =~= pieces.drop_last().push(pieces.last()));
                pieces.drop_last().lemma_push_map_commute(f, pieces.last());
                pieces.drop_last().map_values(f).lemma_filter_push(f(pieces.last()), p);
            }
            if !t.as_str().is_empty() {
                let ghost before = out@;
                out.push(t);
                assert(views(out@) =~= views(before).push(trim(line@)));
            }
            line = Vec::new();
            proof {
                assert(line@ =~= Seq::<char>::empty());
            }
        } else {
            line.push(c);
            proof {
                let np = split_on(cs@.take(i + 1), '\n');
                assert(np == pieces.update(pieces.len() - 1, pieces.last().push(c)));
                assert(np.drop_last() =~= pieces.drop_last());
            }
        }
        proof {
            crate::text::lemma_split_nonempty(cs@.take(i + 1), '\n');
        }
        i = i + 1;
    }
    assert(cs@.take(i as int) =~= cs@);
    let ghost pieces = split_on(cs@, '\n');
    let t = trimmed(&line);
    proof {
        assert(pieces =~= pieces.drop_last().push(pieces.last()));
        pieces.drop_last().lemma_push_map_commute(f, pieces.last());
        pieces.drop_last().map_values(f).lemma_filter_push(f(pieces.last()), p);
    }
    if !t.as_str().is_empty() {
        let ghost before = out@;
        out.push(t);
        assert(views(out@) =~= views(before).push(trim(line@)));
    }
    out
}

} // verus!
