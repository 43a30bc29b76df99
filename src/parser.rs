//! The pattern grammar and its parser.
//!
//! After trimming white space at both ends, a pattern is one or more
//! components, each followed by optional separators (space, tab, carriage
//! return, line feed):
//!   - an ellipsis `...`;
//!   - a dimension, an identifier `[A-Za-z_][A-Za-z0-9_]*` (the longest run);
//!   - a composite group `( id (sep id)* )`, with optional separators inside
//!     the parentheses.
//! The whole trimmed text must be consumed.

use vstd::prelude::*;
use vstd::string::StrSliceExecFns;
use crate::pattern::{
    ComponentView, PatternComponent, ShapePattern, ShapePatternError, components_view,
    ellipsis_count, join_spaced, names_view, render, render_component, valid_components,
};
use crate::text::{chars_of, is_white_space, white_space};

verus! {

/// Classes of characters whose runs the grammar measures.
#[derive(Clone, Copy)]
pub enum CharClass {
    Ident,
    Separator,
    White,
}

pub open spec fn is_ident_start(c: char) -> bool {
    let u = c as u32;
    (0x41 <= u <= 0x5a) || (0x61 <= u <= 0x7a) || u == 0x5f
}

pub open spec fn is_ident_char(c: char) -> bool {
    is_ident_start(c) || (0x30 <= (c as u32) <= 0x39)
}

pub open spec fn is_separator(c: char) -> bool {
    c == ' ' || c == '\t' || c == '\r' || c == '\n'
}

pub open spec fn in_class(c: char, class: CharClass) -> bool {
    match class {
        CharClass::Ident => is_ident_char(c),
        CharClass::Separator => is_separator(c),
        CharClass::White => is_white_space(c),
    }
}

/// Length of the run of `class` characters at the start of `s`.
pub open spec fn run_len(s: Seq<char>, class: CharClass) -> nat
    decreases s.len(),
{
    if s.len() > 0 && in_class(s[0], class) {
        1 + run_len(s.drop_first(), class)
    } else {
        0
    }
}

/// Length of the run of white space at the end of `s`.
pub open spec fn trailing_white_len(s: Seq<char>) -> nat
    decreases s.len(),
{
    if s.len() > 0 && is_white_space(s.last()) {
        1 + trailing_white_len(s.drop_last())
    } else {
        0
    }
}

/// `s` without white space at either end.
pub open spec fn trim(s: Seq<char>) -> Seq<char> {
    let lead = run_len(s, CharClass::White);
    if lead == s.len() {
        Seq::empty()
    } else {
        s.subrange(lead as int, s.len() - trailing_white_len(s))
    }
}

pub proof fn lemma_run_len_bound(s: Seq<char>, class: CharClass)
    ensures
        run_len(s, class) <= s.len(),
    decreases s.len(),
{
    if s.len() > 0 && in_class(s[0], class) {
        lemma_run_len_bound(s.drop_first(), class);
    }
}

/// A run of `n` characters of the class, not followed by another, has length `n`.
pub proof fn lemma_run_len(s: Seq<char>, class: CharClass, n: int)
    requires
        0 <= n <= s.len(),
        forall|k: int| 0 <= k < n ==> in_class(#[trigger] s[k], class),
        n == s.len() || !in_class(s[n], class),
    ensures
        run_len(s, class) == n,
    decreases n,
{
    if n > 0 {
        let t = s.drop_first();
        assert forall|k: int| 0 <= k < n - 1 implies in_class(#[trigger] t[k], class) by {
            assert(t[k] == s[k + 1]);
        }
        if n - 1 < t.len() {
            assert(t[n - 1] == s[n]);
        }
        lemma_run_len(t, class, n - 1);
    }
}

/// The characters of the run are of the class, and the one after it is not.
pub proof fn lemma_run_len_facts(s: Seq<char>, class: CharClass)
    ensures
        run_len(s, class) <= s.len(),
        forall|k: int| 0 <= k < run_len(s, class) ==> in_class(#[trigger] s[k], class),
        run_len(s, class) < s.len() ==> !in_class(s[run_len(s, class) as int], class),
    decreases s.len(),
{
    if s.len() > 0 && in_class(s[0], class) {
        let t = s.drop_first();
        lemma_run_len_facts(t, class);
        assert forall|k: int| 0 <= k < run_len(s, class) implies in_class(#[trigger] s[k], class) by {
            if k > 0 {
                assert(s[k] == t[k - 1]);
            }
        }
        if run_len(s, class) < s.len() {
            assert(s[run_len(s, class) as int] == t[run_len(t, class) as int]);
        }
    }
}

/// A white run of `m` characters at the end, not preceded by another, has length `m`.
pub proof fn lemma_trailing_white_len(s: Seq<char>, m: int)
    requires
        0 <= m <= s.len(),
        forall|k: int| s.len() - m <= k < s.len() ==> is_white_space(#[trigger] s[k]),
        m == s.len() || !is_white_space(s[s.len() - m - 1]),
    ensures
        trailing_white_len(s) == m,
    decreases m,
{
    if m > 0 {
        let t = s.drop_last();
        assert forall|k: int| t.len() - (m - 1) <= k < t.len() implies is_white_space(
            #[trigger] t[k],
        ) by {
            assert(t[k] == s[k]);
        }
        if m - 1 < t.len() {
            assert(t[t.len() - (m - 1) - 1] == s[s.len() - m - 1]);
        }
        lemma_trailing_white_len(t, m - 1);
    }
}

/// The names of a composite group, read from the start of `s` (which starts
/// with an identifier), and how many characters they take.
pub open spec fn scan_names(s: Seq<char>) -> (Seq<Seq<char>>, nat)
    decreases s.len(),
{
    let n = run_len(s, CharClass::Ident);
    let rest = s.skip(n as int);
    let w = run_len(rest, CharClass::Separator);
    if 0 < n && 0 < w < rest.len() && is_ident_start(rest[w as int]) {
        proof {
            lemma_run_len_bound(s, CharClass::Ident);
        }
        let more = scan_names(rest.skip(w as int));
        (seq![s.take(n as int)] + more.0, n + w + more.1)
    } else {
        (seq![s.take(n as int)], n)
    }
}

pub proof fn lemma_scan_names_len(s: Seq<char>)
    requires
        s.len() > 0,
        is_ident_start(s[0]),
    ensures
        0 < scan_names(s).1 <= s.len(),
    decreases s.len(),
{
    let n = run_len(s, CharClass::Ident);
    lemma_run_len_bound(s, CharClass::Ident);
    let rest = s.skip(n as int);
    let w = run_len(rest, CharClass::Separator);
    lemma_run_len_bound(rest, CharClass::Separator);
    if 0 < n && 0 < w < rest.len() && is_ident_start(rest[w as int]) {
        lemma_scan_names_len(rest.skip(w as int));
    }
}

/// The component at the start of `s`, and how many characters it takes.
#[verifier::opaque]
pub open spec fn scan_component(s: Seq<char>) -> Option<(ComponentView, nat)> {
    if s.len() >= 3 && s[0] == '.' && s[1] == '.' && s[2] == '.' {
        Some((ComponentView::Ellipsis, 3))
    } else if s.len() > 0 && is_ident_start(s[0]) {
        let n = run_len(s, CharClass::Ident);
        Some((ComponentView::Dim(s.take(n as int)), n))
    } else if s.len() > 0 && s[0] == '(' {
        let w = run_len(s.drop_first(), CharClass::Separator);
        let body = s.skip(1 + w as int);
        if body.len() > 0 && is_ident_start(body[0]) {
            let names = scan_names(body);
            let after = body.skip(names.1 as int);
            let w2 = run_len(after, CharClass::Separator);
            if w2 < after.len() && after[w2 as int] == ')' {
                Some((ComponentView::Composite(names.0), 1 + w + names.1 + w2 + 1))
            } else {
                None
            }
        } else {
            None
        }
    } else {
        None
    }
}

pub proof fn lemma_scan_component_len(s: Seq<char>)
    ensures
        scan_component(s) matches Some(found) ==> 0 < found.1 <= s.len(),
{
    reveal(scan_component);
    if s.len() > 0 && is_ident_start(s[0]) {
        lemma_run_len_bound(s, CharClass::Ident);
    }
    if s.len() > 0 && s[0] == '(' {
        let w = run_len(s.drop_first(), CharClass::Separator);
        lemma_run_len_bound(s.drop_first(), CharClass::Separator);
        let body = s.skip(1 + w as int);
        if body.len() > 0 && is_ident_start(body[0]) {
            lemma_scan_names_len(body);
            let after = body.skip(scan_names(body).1 as int);
            lemma_run_len_bound(after, CharClass::Separator);
        }
    }
}

/// The components of `s`, each followed by optional separators, consuming all of `s`.
pub open spec fn scan_components(s: Seq<char>) -> Option<Seq<ComponentView>>
    decreases s.len(),
{
    match scan_component(s) {
        None => None,
        Some(first) => {
            let rest = s.skip(first.1 as int);
            let next = rest.skip(run_len(rest, CharClass::Separator) as int);
            if next.len() == 0 {
                Some(seq![first.0])
            } else {
                proof {
                    lemma_scan_component_len(s);
                    lemma_run_len_bound(rest, CharClass::Separator);
                }
                match scan_components(next) {
                    Some(more) => Some(seq![first.0] + more),
                    None => None,
                }
            }
        },
    }
}

/// The components that a pattern text reads as, if it follows the grammar.
pub open spec fn parse_components(text: Seq<char>) -> Option<Seq<ComponentView>> {
    scan_components(trim(text))
}

/// `r` is what parsing `text` gives: the components it reads as; `ParseError`
/// carrying the text when it does not follow the grammar; `InvalidPattern`
/// carrying the canonical text when it reads as more than one ellipsis.
pub open spec fn parses_as(text: Seq<char>, r: Result<ShapePattern, ShapePatternError>) -> bool {
    match parse_components(text) {
        None => r matches Err(ShapePatternError::ParseError { pattern }) && pattern@ == text,
        Some(cs) => match r {
            Ok(p) => valid_components(cs) && p@ == cs,
            Err(e) => {
                &&& !valid_components(cs)
                &&& e matches ShapePatternError::InvalidPattern { pattern, message }
                &&& pattern@ == render(cs)
                &&& message@ == "Only one ellipsis is allowed"@
            },
        },
    }
}

fn ident_start(c: char) -> (r: bool)
    ensures
        r == is_ident_start(c),
{
    let u = c as u32;
    (0x41 <= u && u <= 0x5a) || (0x61 <= u && u <= 0x7a) || u == 0x5f
}

fn char_in_class(c: char, class: CharClass) -> (r: bool)
    ensures
        r == in_class(c, class),
{
    match class {
        CharClass::Ident => {
            let u = c as u32;
            ident_start(c) || (0x30 <= u && u <= 0x39)
        },
        CharClass::Separator => c == ' ' || c == '\t' || c == '\r' || c == '\n',
        CharClass::White => white_space(c),
    }
}

/// The end of the run of `class` characters that starts at `i`, stopping at `end` at the latest.
fn run_end(cs: &Vec<char>, i: usize, end: usize, class: CharClass) -> (j: usize)
    requires
        i <= end <= cs@.len(),
    ensures
        i <= j <= end,
        j - i == run_len(cs@.subrange(i as int, end as int), class),
{
    let mut j = i;
    while j < end && char_in_class(cs[j], class)
        invariant
            i <= j <= end <= cs@.len(),
            forall|k: int| i <= k < j ==> in_class(#[trigger] cs@[k], class),
        decreases end - j,
    {
        j = j + 1;
    }
    proof {
        let s = cs@.subrange(i as int, end as int);
        assert forall|k: int| 0 <= k < j - i implies in_class(#[trigger] s[k], class) by {
            assert(s[k] == cs@[i + k]);
        }
        lemma_run_len(s, class, j - i);
    }
    j
}

/// The names of the composite group whose first name starts at `i`, and where they end.
fn scan_names_at(input: &str, cs: &Vec<char>, i: usize, end: usize) -> (r: (Vec<String>, usize))
    requires
        cs@ == input@,
        i < end <= cs@.len(),
        is_ident_start(cs@[i as int]),
    ensures
        names_view(r.0@) == scan_names(cs@.subrange(i as int, end as int)).0,
        r.1 == i + scan_names(cs@.subrange(i as int, end as int)).1,
{
    let ghost whole = scan_names(cs@.subrange(i as int, end as int));
    let mut names: Vec<String> = Vec::new();
    let mut j = i;
    loop
        invariant
            cs@ == input@,
            i <= j < end <= cs@.len(),
            is_ident_start(cs@[j as int]),
            whole == scan_names(cs@.subrange(i as int, end as int)),
            whole.0 == names_view(names@) + scan_names(cs@.subrange(j as int, end as int)).0,
            whole.1 == (j - i) + scan_names(cs@.subrange(j as int, end as int)).1,
        decreases end - j,
    {
        let ghost s = cs@.subrange(j as int, end as int);
        let name_end = run_end(cs, j, end, CharClass::Ident);
        let name = input.substring_char(j, name_end).to_owned();
        let k = run_end(cs, name_end, end, CharClass::Separator);
        proof {
            assert(s[0] == cs@[j as int]);
            assert(s.skip(name_end - j) =~= cs@.subrange(name_end as int, end as int));
            assert(s.take(name_end - j) =~= cs@.subrange(j as int, name_end as int));
            assert(names_view(names@.push(name)) =~= names_view(names@).push(name@));
        }
        if k > name_end && k < end && ident_start(cs[k]) {
            proof {
                let rest = cs@.subrange(name_end as int, end as int);
                assert(rest[k - name_end] == cs@[k as int]);
                assert(rest.skip(k - name_end) =~= cs@.subrange(k as int, end as int));
                assert(names_view(names@.push(name)) + scan_names(
                    cs@.subrange(k as int, end as int),
                ).0 =~= names_view(names@) + scan_names(s).0);
            }
            names.push(name);
            j = k;
        } else {
            proof {
                let rest = cs@.subrange(name_end as int, end as int);
                if k > name_end && k < end {
                    assert(rest[k - name_end] == cs@[k as int]);
                }
                assert(names_view(names@.push(name)) =~= names_view(names@) + scan_names(s).0);
                assert(scan_names(s).1 == name_end - j);
            }
            names.push(name);
            return (names, name_end);
        }
    }
}

/// The component that starts at `i`, and where it ends.
fn scan_component_at(input: &str, cs: &Vec<char>, i: usize, end: usize) -> (r: Option<
    (PatternComponent, usize),
>)
    requires
        cs@ == input@,
        i < end <= cs@.len(),
    ensures
        match scan_component(cs@.subrange(i as int, end as int)) {
            None => r is None,
            Some(found) => r matches Some(got) && got.0@ == found.0 && got.1 == i + found.1,
        },
{
    let ghost s = cs@.subrange(i as int, end as int);
    proof {
        reveal(scan_component);
        assert(s[0] == cs@[i as int]);
        if s.len() >= 3 {
            assert(s[1] == cs@[i + 1]);
            assert(s[2] == cs@[i + 2]);
        }
    }
    if end - i >= 3 && cs[i] == '.' && cs[i + 1] == '.' && cs[i + 2] == '.' {
        return Some((PatternComponent::Ellipsis, i + 3));
    }
    if ident_start(cs[i]) {
        let name_end = run_end(cs, i, end, CharClass::Ident);
        let name = input.substring_char(i, name_end).to_owned();
        proof {
            assert(s.take(name_end - i) =~= cs@.subrange(i as int, name_end as int));
        }
        return Some((PatternComponent::Dim(name), name_end));
    }
    if cs[i] == '(' {
        let body_start = run_end(cs, i + 1, end, CharClass::Separator);
        let ghost body = cs@.subrange(body_start as int, end as int);
        proof {
            assert(s.drop_first() =~= cs@.subrange(i + 1, end as int));
            assert(s.skip(1 + (body_start - i - 1)) =~= body);
            if body.len() > 0 {
                assert(body[0] == cs@[body_start as int]);
            }
        }
        if body_start < end && ident_start(cs[body_start]) {
            proof {
                lemma_scan_names_len(body);
            }
            let (names, names_end) = scan_names_at(input, cs, body_start, end);
            let close = run_end(cs, names_end, end, CharClass::Separator);
            proof {
                let after = cs@.subrange(names_end as int, end as int);
                assert(body.skip(names_end - body_start) =~= after);
                if close < end {
                    assert(after[close - names_end] == cs@[close as int]);
                }
            }
            if close < end && cs[close] == ')' {
                return Some((PatternComponent::Composite(names), close + 1));
            }
        }
        return None;
    }
    None
}

/// Parses a pattern text.
///
/// Fails with `ParseError` (carrying the input) when the text does not follow
/// the grammar, and with `InvalidPattern` when it has more than one ellipsis.
pub fn parse_shape_pattern(input: &str) -> (r: Result<ShapePattern, ShapePatternError>)
    ensures
        parses_as(input@, r),
{
    let cs = chars_of(input);
    let len = cs.len();
    let lead = run_end(&cs, 0, len, CharClass::White);
    proof {
        assert(cs@.subrange(0, len as int) =~= cs@);
        lemma_run_len_facts(cs@, CharClass::White);
    }
    if lead == len {
        proof {
            reveal(scan_component);
            assert(trim(input@) =~= Seq::<char>::empty());
        }
        return Err(ShapePatternError::ParseError { pattern: input.to_owned() });
    }
    let mut trail = len;
    while trail > lead && white_space(cs[trail - 1])
        invariant
            len == cs@.len(),
            lead < trail <= len,
            !is_white_space(cs@[lead as int]),
            forall|k: int| trail <= k < len ==> is_white_space(#[trigger] cs@[k]),
        decreases trail,
    {
        trail = trail - 1;
    }
    proof {
        lemma_trailing_white_len(cs@, len - trail);
        assert(trim(input@) =~= cs@.subrange(lead as int, trail as int));
    }
    let ghost t = cs@.subrange(lead as int, trail as int);
    let mut components: Vec<PatternComponent> = Vec::new();
    let mut i = lead;
    loop
        invariant
            cs@ == input@,
            lead <= i < trail <= cs@.len(),
            t == trim(input@),
            scan_components(t) == match scan_components(cs@.subrange(i as int, trail as int)) {
                Some(more) => Some(components_view(components@) + more),
                None => None,
            },
        decreases trail - i,
    {
        let ghost s = cs@.subrange(i as int, trail as int);
        let ghost before = components_view(components@);
        match scan_component_at(input, &cs, i, trail) {
            None => {
                return Err(ShapePatternError::ParseError { pattern: input.to_owned() });
            },
            Some((c, c_end)) => {
                proof {
                    lemma_scan_component_len(s);
                }
                let next = run_end(&cs, c_end, trail, CharClass::Separator);
                proof {
                    assert(s.skip(c_end - i) =~= cs@.subrange(c_end as int, trail as int));
                    assert(cs@.subrange(c_end as int, trail as int).skip(next - c_end)
                        =~= cs@.subrange(next as int, trail as int));
                }
                components.push(c);
                proof {
                    assert(components_view(components@) =~= before.push(c@));
                    if let Some(more) = scan_components(cs@.subrange(next as int, trail as int)) {
                        assert(components_view(components@) + more =~= before + (seq![c@] + more));
                    }
                }
                if next == trail {
                    proof {
                        assert(before + seq![c@] =~= components_view(components@));
                    }
                    return ShapePattern::new(components);
                }
                i = next;
            },
        }
    }
}

impl ShapePattern {
    /// Parses a pattern text; see [`parse_shape_pattern`].
    pub fn parse(input: &str) -> (r: Result<Self, ShapePatternError>)
        ensures
            parses_as(input@, r),
    {
        parse_shape_pattern(input)
    }
}

/// A name that the grammar reads back as itself.
pub open spec fn is_identifier(n: Seq<char>) -> bool {
    &&& n.len() > 0
    &&& is_ident_start(n[0])
    &&& forall|i: int| 0 <= i < n.len() ==> is_ident_char(#[trigger] n[i])
}

/// A component whose canonical text reads back as itself.
pub open spec fn canonical_component(c: ComponentView) -> bool {
    match c {
        ComponentView::Dim(n) => is_identifier(n),
        ComponentView::Ellipsis => true,
        ComponentView::Composite(ns) => ns.len() > 0 && forall|j: int|
            0 <= j < ns.len() ==> is_identifier(#[trigger] ns[j]),
    }
}

/// Components whose canonical text reads back as themselves: at least one,
/// every name an identifier, every group non-empty.
pub open spec fn canonical_components(cs: Seq<ComponentView>) -> bool {
    &&& cs.len() > 0
    &&& forall|k: int| 0 <= k < cs.len() ==> canonical_component(#[trigger] cs[k])
}

pub proof fn lemma_join_spaced_first(parts: Seq<Seq<char>>)
    requires
        parts.len() >= 2,
    ensures
        join_spaced(parts) == parts[0] + seq![' '] + join_spaced(parts.drop_first()),
    decreases parts.len(),
{
    let init = parts.drop_last();
    let tail = parts.drop_first();
    if parts.len() > 2 {
        lemma_join_spaced_first(init);
        assert(init.drop_first() =~= tail.drop_last());
        assert(join_spaced(parts) =~= parts[0] + seq![' '] + join_spaced(tail));
    } else {
        assert(join_spaced(init) == parts[0]);
        assert(join_spaced(tail) == parts[1]);
    }
}

pub proof fn lemma_join_spaced_ends(parts: Seq<Seq<char>>)
    requires
        parts.len() > 0,
        forall|j: int| 0 <= j < parts.len() ==> (#[trigger] parts[j]).len() > 0,
    ensures
        join_spaced(parts).len() > 0,
        join_spaced(parts)[0] == parts[0][0],
        join_spaced(parts).last() == parts.last().last(),
    decreases parts.len(),
{
    if parts.len() > 1 {
        lemma_join_spaced_ends(parts.drop_last());
    }
}

/// The first and last characters of a canonical component's text.
pub proof fn lemma_render_component_ends(c: ComponentView)
    requires
        canonical_component(c),
    ensures
        render_component(c).len() > 0,
        is_ident_start(render_component(c)[0]) || render_component(c)[0] == '.'
            || render_component(c)[0] == '(',
        is_ident_char(render_component(c).last()) || render_component(c).last() == '.'
            || render_component(c).last() == ')',
{
    if let ComponentView::Dim(n) = c {
        assert(is_ident_char(n[n.len() - 1]));
    }
}

/// The first and last characters of canonical components' text.
pub proof fn lemma_render_ends(cs: Seq<ComponentView>)
    requires
        canonical_components(cs),
    ensures
        render(cs).len() > 0,
        is_ident_start(render(cs)[0]) || render(cs)[0] == '.' || render(cs)[0] == '(',
        is_ident_char(render(cs).last()) || render(cs).last() == '.' || render(cs).last() == ')',
{
    let parts = cs.map_values(|c: ComponentView| render_component(c));
    assert forall|j: int| 0 <= j < parts.len() implies (#[trigger] parts[j]).len() > 0 by {
        lemma_render_component_ends(cs[j]);
    }
    lemma_join_spaced_ends(parts);
    lemma_render_component_ends(cs[0]);
    lemma_render_component_ends(cs.last());
}

/// An identifier followed by a non-identifier character is read whole.
pub proof fn lemma_ident_then(n: Seq<char>, tail: Seq<char>)
    requires
        is_identifier(n),
        tail.len() == 0 || !is_ident_char(tail[0]),
    ensures
        run_len(n + tail, CharClass::Ident) == n.len(),
        (n + tail).take(n.len() as int) == n,
        (n + tail).skip(n.len() as int) == tail,
{
    let s = n + tail;
    assert forall|k: int| 0 <= k < n.len() implies in_class(#[trigger] s[k], CharClass::Ident) by {
        assert(s[k] == n[k]);
    }
    if n.len() < s.len() {
        assert(s[n.len() as int] == tail[0]);
    }
    lemma_run_len(s, CharClass::Ident, n.len() as int);
    assert(s.take(n.len() as int) =~= n);
    assert(s.skip(n.len() as int) =~= tail);
}

/// The names of a group, in canonical text and followed by `)`, are read back.
pub proof fn lemma_scan_names_join(ns: Seq<Seq<char>>, rest: Seq<char>)
    requires
        ns.len() > 0,
        forall|j: int| 0 <= j < ns.len() ==> is_identifier(#[trigger] ns[j]),
        rest.len() > 0,
        rest[0] == ')',
    ensures
        scan_names(join_spaced(ns) + rest) == (ns, join_spaced(ns).len()),
    decreases ns.len(),
{
    let s = join_spaced(ns) + rest;
    assert(is_identifier(ns[0]));
    if ns.len() == 1 {
        lemma_ident_then(ns[0], rest);
        assert(seq![ns[0]] =~= ns);
    } else {
        lemma_join_spaced_first(ns);
        let tail = ns.drop_first();
        let jt = join_spaced(tail);
        let r1 = seq![' '] + jt + rest;
        assert(s =~= ns[0] + r1);
        lemma_ident_then(ns[0], r1);
        assert forall|j: int| 0 <= j < tail.len() implies (#[trigger] tail[j]).len() > 0 by {
            assert(is_identifier(ns[j + 1]));
        }
        lemma_join_spaced_ends(tail);
        assert(is_identifier(tail[0]));
        assert(r1[1] == jt[0]);
        assert forall|k: int| 0 <= k < 1 implies in_class(#[trigger] r1[k], CharClass::Separator) by {}
        lemma_run_len(r1, CharClass::Separator, 1);
        assert(r1.skip(1) =~= jt + rest);
        assert forall|j: int| 0 <= j < tail.len() implies is_identifier(#[trigger] tail[j]) by {
            assert(tail[j] == ns[j + 1]);
        }
        lemma_scan_names_join(tail, rest);
        assert(seq![ns[0]] + tail =~= ns);
    }
}

/// A canonical component's text, followed by nothing or a space, is read back.
pub proof fn lemma_scan_rendered_component(c: ComponentView, tail: Seq<char>)
    requires
        canonical_component(c),
        tail.len() == 0 || tail[0] == ' ',
    ensures
        scan_component(render_component(c) + tail) == Some((c, render_component(c).len())),
{
    reveal(scan_component);
    let s = render_component(c) + tail;
    match c {
        ComponentView::Ellipsis => {
            assert(s[0] == '.' && s[1] == '.' && s[2] == '.');
        },
        ComponentView::Dim(n) => {
            lemma_ident_then(n, tail);
            assert(s[0] == n[0]);
        },
        ComponentView::Composite(ns) => {
            let j = join_spaced(ns);
            let close = seq![')'] + tail;
            assert forall|i: int| 0 <= i < ns.len() implies (#[trigger] ns[i]).len() > 0 by {
                assert(is_identifier(ns[i]));
            }
            lemma_join_spaced_ends(ns);
            assert(is_identifier(ns[0]));
            assert(s =~= seq!['('] + (j + close));
            assert(s.drop_first() =~= j + close);
            assert(s.drop_first()[0] == j[0]);
            assert(run_len(s.drop_first(), CharClass::Separator) == 0);
            assert(s.skip(1) =~= j + close);
            lemma_scan_names_join(ns, close);
            assert((j + close).skip(j.len() as int) =~= close);
            assert(run_len(close, CharClass::Separator) == 0);
        },
    }
}

/// Canonical components' text is read back as those components.
pub proof fn lemma_scan_rendered(cs: Seq<ComponentView>)
    requires
        canonical_components(cs),
    ensures
        scan_components(render(cs)) == Some(cs),
    decreases cs.len(),
{
    let parts = cs.map_values(|c: ComponentView| render_component(c));
    assert(canonical_component(cs[0]));
    if cs.len() == 1 {
        assert(render(cs) == render_component(cs[0]));
        assert(render_component(cs[0]) + Seq::empty() =~= render_component(cs[0]));
        lemma_scan_rendered_component(cs[0], Seq::empty());
        let rest = render(cs).skip(render_component(cs[0]).len() as int);
        assert(rest.len() == 0);
        assert(rest.skip(run_len(rest, CharClass::Separator) as int).len() == 0);
        assert(seq![cs[0]] =~= cs);
    } else {
        let tail = cs.drop_first();
        assert forall|k: int| 0 <= k < tail.len() implies canonical_component(#[trigger] tail[k]) by {
            assert(tail[k] == cs[k + 1]);
        }
        lemma_join_spaced_first(parts);
        assert(parts.drop_first() =~= tail.map_values(|c: ComponentView| render_component(c)));
        let rt = render(tail);
        let rest = seq![' '] + rt;
        assert(render(cs) =~= render_component(cs[0]) + rest);
        lemma_scan_rendered_component(cs[0], rest);
        lemma_render_ends(tail);
        assert(rest[1] == rt[0]);
        assert forall|k: int| 0 <= k < 1 implies in_class(#[trigger] rest[k], CharClass::Separator) by {}
        lemma_run_len(rest, CharClass::Separator, 1);
        assert((render_component(cs[0]) + rest).skip(render_component(cs[0]).len() as int) =~= rest);
        assert(rest.skip(1) =~= rt);
        lemma_scan_rendered(tail);
        assert(seq![cs[0]] + tail =~= cs);
    }
}

/// Canonical text has no white space at either end.
pub proof fn lemma_trim_rendered(cs: Seq<ComponentView>)
    requires
        canonical_components(cs),
    ensures
        trim(render(cs)) == render(cs),
{
    let s = render(cs);
    lemma_render_ends(cs);
    assert(run_len(s, CharClass::White) == 0);
    assert(trailing_white_len(s) == 0);
    assert(s.subrange(0, s.len() as int) =~= s);
}

/// The canonical text of components whose names are identifiers and whose
/// groups are not empty reads back as exactly those components.
pub proof fn lemma_parse_render(cs: Seq<ComponentView>)
    requires
        canonical_components(cs),
    ensures
        parse_components(render(cs)) == Some(cs),
{
    lemma_trim_rendered(cs);
    lemma_scan_rendered(cs);
}

/// Parsing a pattern's display string gives back an equal pattern.
pub proof fn lemma_display_round_trip(
    p: ShapePattern,
    text: String,
    r: Result<ShapePattern, ShapePatternError>,
)
    requires
        valid_components(p@),
        canonical_components(p@),
        text@ == render(p@),
        parses_as(text@, r),
    ensures
        r matches Ok(q) && q@ == p@,
{
    lemma_parse_render(p@);
}

/// Text that reads as two or more ellipses, whatever surrounds them, fails
/// with `InvalidPattern`.
pub proof fn lemma_two_ellipses_rejected(text: Seq<char>, r: Result<ShapePattern, ShapePatternError>)
    requires
        parse_components(text) matches Some(cs) && ellipsis_count(cs) >= 2,
        parses_as(text, r),
    ensures
        r matches Err(ShapePatternError::InvalidPattern { .. }),
{
}

} // verus!
