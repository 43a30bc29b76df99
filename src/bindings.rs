//! Sources of externally known dimension values, and the map of bindings
//! that a match produces.
//!
//! Where a list names the same dimension twice, its first occurrence wins and
//! later ones are ignored.

use vstd::prelude::*;
use std::collections::HashMap;
use crate::text::chars_of;

verus! {

/// The view of a list of named values.
pub open spec fn pairs_view(pairs: Seq<(String, usize)>) -> Seq<(Seq<char>, usize)> {
    pairs.map_values(|p: (String, usize)| (p.0@, p.1))
}

/// The view of a list of named values whose names have a view.
pub open spec fn named_pairs_view<T: View<V = Seq<char>>>(pairs: Seq<(T, usize)>) -> Seq<
    (Seq<char>, usize),
> {
    pairs.map_values(|p: (T, usize)| (p.0@, p.1))
}

/// The map of a list of named values: each name to the value of its first occurrence.
pub open spec fn first_bindings(pairs: Seq<(Seq<char>, usize)>) -> Map<Seq<char>, usize>
    decreases pairs.len(),
{
    if pairs.len() == 0 {
        Map::empty()
    } else {
        let m = first_bindings(pairs.drop_last());
        if m.contains_key(pairs.last().0) {
            m
        } else {
            m.insert(pairs.last().0, pairs.last().1)
        }
    }
}

/// No name occurs twice in `pairs`.
pub open spec fn distinct_names(pairs: Seq<(Seq<char>, usize)>) -> bool {
    forall|i: int, j: int|
        0 <= i < j < pairs.len() ==> #[trigger] pairs[i].0 != #[trigger] pairs[j].0
}

/// `pairs` lists the bindings of `m`, each name once.
pub open spec fn lists_bindings(pairs: Seq<(Seq<char>, usize)>, m: Map<Seq<char>, usize>) -> bool {
    &&& distinct_names(pairs)
    &&& forall|i: int|
        0 <= i < pairs.len() ==> m.contains_key(#[trigger] pairs[i].0) && m[pairs[i].0]
            == pairs[i].1
    &&& forall|k: Seq<char>|
        #[trigger] m.contains_key(k) ==> exists|i: int| 0 <= i < pairs.len() && pairs[i].0 == k
}

/// The value bound to `name` in `m`, if any.
pub open spec fn lookup_of(m: Map<Seq<char>, usize>, name: Seq<char>) -> Option<usize> {
    if m.contains_key(name) {
        Some(m[name])
    } else {
        None
    }
}

/// Extending a listing by a name it does not have lists the extended map.
pub proof fn lemma_lists_bindings_push(
    pairs: Seq<(Seq<char>, usize)>,
    m: Map<Seq<char>, usize>,
    name: Seq<char>,
    value: usize,
)
    requires
        lists_bindings(pairs, m),
        !m.contains_key(name),
    ensures
        lists_bindings(pairs.push((name, value)), m.insert(name, value)),
{
    let p = pairs.push((name, value));
    let m2 = m.insert(name, value);
    assert forall|i: int, j: int| 0 <= i < j < p.len() implies #[trigger] p[i].0 != #[trigger] p[j].0 by {
        if j == pairs.len() {
            assert(m.contains_key(pairs[i].0));
        } else {
            assert(pairs[i].0 != pairs[j].0);
        }
    }
    assert forall|i: int| 0 <= i < p.len() implies m2.contains_key(#[trigger] p[i].0) && m2[p[i].0]
        == p[i].1 by {
        if i < pairs.len() {
            assert(m.contains_key(pairs[i].0));
        }
    }
    assert forall|k: Seq<char>| #[trigger] m2.contains_key(k) implies exists|i: int|
        0 <= i < p.len() && p[i].0 == k by {
        if k == name {
            assert(p[pairs.len() as int].0 == k);
        } else {
            assert(m.contains_key(k));
            let i = choose|i: int| 0 <= i < pairs.len() && pairs[i].0 == k;
            assert(p[i].0 == k);
        }
    }
}

/// The index of `key` among the names of `pairs`, if it is there.
fn position_of(pairs: &Vec<(String, usize)>, key: &String) -> (r: Option<usize>)
    ensures
        match r {
            Some(i) => {
                &&& i < pairs@.len()
                &&& pairs_view(pairs@)[i as int].0 == key@
                &&& forall|j: int| 0 <= j < i ==> #[trigger] pairs_view(pairs@)[j].0 != key@
            },
            None => forall|i: int|
                0 <= i < pairs@.len() ==> #[trigger] pairs_view(pairs@)[i].0 != key@,
        },
{
    let n = pairs.len();
    let mut k: usize = 0;
    while k < n
        invariant
            n == pairs@.len(),
            k <= n,
            forall|i: int| 0 <= i < k ==> #[trigger] pairs_view(pairs@)[i].0 != key@,
        decreases n - k,
    {
        if pairs[k].0 == *key {
            return Some(k);
        }
        k = k + 1;
    }
    None
}

/// A name of a binding: a string, borrowed or owned.
pub trait BindingName: View<V = Seq<char>> {
    /// The name as an owned string.
    fn to_name(&self) -> (r: String)
        ensures
            r@ == self@,
    ;
}

impl<'a> BindingName for &'a str {
    fn to_name(&self) -> (r: String) {
        (*self).to_owned()
    }
}

impl BindingName for String {
    fn to_name(&self) -> (r: String) {
        self.clone()
    }
}

/// The bindings of a list, first occurrences only.
fn distinct_pairs<T: BindingName>(s: &[(T, usize)]) -> (r: Vec<(String, usize)>)
    ensures
        lists_bindings(pairs_view(r@), first_bindings(named_pairs_view(s@))),
{
    let ghost sv = named_pairs_view(s@);
    let mut out: Vec<(String, usize)> = Vec::new();
    let n = s.len();
    let mut k: usize = 0;
    while k < n
        invariant
            n == s@.len(),
            sv == named_pairs_view(s@),
            k <= n,
            lists_bindings(pairs_view(out@), first_bindings(sv.take(k as int))),
        decreases n - k,
    {
        let name = s[k].0.to_name();
        let value = s[k].1;
        let ghost m = first_bindings(sv.take(k as int));
        proof {
            assert(sv.take(k + 1).drop_last() =~= sv.take(k as int));
            assert(sv.take(k + 1).last() == (name@, value));
        }
        match position_of(&out, &name) {
            Some(i) => {
                proof {
                    assert(m.contains_key(pairs_view(out@)[i as int].0));
                }
            },
            None => {
                proof {
                    if m.contains_key(name@) {
                        let i = choose|i: int|
                            0 <= i < pairs_view(out@).len() && pairs_view(out@)[i].0 == name@;
                        assert(pairs_view(out@)[i].0 != name@);
                    }
                    lemma_lists_bindings_push(pairs_view(out@), m, name@, value);
                }
                let ghost prior = pairs_view(out@);
                out.push((name, value));
                proof {
                    assert(pairs_view(out@) =~= prior.push((name@, value)));
                }
            },
        }
        k = k + 1;
    }
    proof {
        assert(sv.take(n as int) =~= sv);
    }
    out
}

/// A read-only source of named dimension values.
pub trait ShapeBindingSource {
    /// The bindings, as a map from name to value.
    spec fn binding_map(&self) -> Map<Seq<char>, usize>;

    /// The bindings, each name once, in no particular order.
    fn for_each_shape_binding(&self) -> (r: Vec<(String, usize)>)
        ensures
            lists_bindings(pairs_view(r@), self.binding_map()),
    ;

    /// The value bound to `name`, if any. By default a scan of the bindings.
    fn lookup_shape_binding(&self, name: &str) -> (r: Option<usize>)
        ensures
            r == lookup_of(self.binding_map(), name@),
    {
        let pairs = self.for_each_shape_binding();
        let key = name.to_owned();
        match position_of(&pairs, &key) {
            Some(i) => Some(pairs[i].1),
            None => {
                proof {
                    if self.binding_map().contains_key(name@) {
                        let i = choose|i: int|
                            0 <= i < pairs_view(pairs@).len() && pairs_view(pairs@)[i].0 == name@;
                        assert(pairs_view(pairs@)[i].0 != key@);
                    }
                }
                None
            },
        }
    }
}

impl<'a, T: BindingName> ShapeBindingSource for &'a [(T, usize)] {
    open spec fn binding_map(&self) -> Map<Seq<char>, usize> {
        first_bindings(named_pairs_view((**self)@))
    }

    fn for_each_shape_binding(&self) -> (r: Vec<(String, usize)>) {
        distinct_pairs(*self)
    }
}

impl<'a, T: BindingName, const N: usize> ShapeBindingSource for &'a [(T, usize); N] {
    open spec fn binding_map(&self) -> Map<Seq<char>, usize> {
        first_bindings(named_pairs_view((**self)@))
    }

    fn for_each_shape_binding(&self) -> (r: Vec<(String, usize)>) {
        distinct_pairs(self.as_slice())
    }
}

impl<'a, T: BindingName> ShapeBindingSource for &'a Vec<(T, usize)> {
    open spec fn binding_map(&self) -> Map<Seq<char>, usize> {
        first_bindings(named_pairs_view((**self)@))
    }

    fn for_each_shape_binding(&self) -> (r: Vec<(String, usize)>) {
        distinct_pairs(self.as_slice())
    }
}

/// Relies on `HashMap::iter`: it visits every entry once, and keys are distinct.
#[verifier::external_body]
fn hash_map_pairs(m: &HashMap<String, usize>) -> (r: Vec<(String, usize)>)
    ensures
        lists_bindings(pairs_view(r@), m.deep_view()),
{
    m.iter().map(|(k, v)| (k.clone(), *v)).collect()
}

/// Relies on `HashMap::get`: the value stored under an equal key, if any.
#[verifier::external_body]
fn hash_map_get(m: &HashMap<String, usize>, name: &str) -> (r: Option<usize>)
    ensures
        r == lookup_of(m.deep_view(), name@),
{
    m.get(name).copied()
}

impl<'a> ShapeBindingSource for &'a HashMap<String, usize> {
    open spec fn binding_map(&self) -> Map<Seq<char>, usize> {
        (**self).deep_view()
    }

    fn for_each_shape_binding(&self) -> (r: Vec<(String, usize)>) {
        hash_map_pairs(*self)
    }

    fn lookup_shape_binding(&self, name: &str) -> (r: Option<usize>) {
        hash_map_get(*self, name)
    }
}

/// A map from dimension names to values, kept as a list.
///
/// Its value for a name is the one of the name's first entry; `insert` keeps
/// the names distinct.
#[derive(Debug)]
pub struct BindingMap {
    entries: Vec<(String, usize)>,
}

impl View for BindingMap {
    type V = Map<Seq<char>, usize>;

    closed spec fn view(&self) -> Map<Seq<char>, usize> {
        first_bindings(pairs_view(self.entries@))
    }
}

impl BindingMap {
    /// An empty map.
    pub fn new() -> (r: Self)
        ensures
            r@ == Map::<Seq<char>, usize>::empty(),
    {
        let r = BindingMap { entries: Vec::new() };
        assert(pairs_view(r.entries@) =~= Seq::empty());
        r
    }

    /// The value bound to `name`, if any.
    pub fn get(&self, name: &str) -> (r: Option<&usize>)
        ensures
            match r {
                Some(v) => self@.contains_key(name@) && *v == self@[name@],
                None => !self@.contains_key(name@),
            },
    {
        let key = name.to_owned();
        proof {
            lemma_first_bindings_domain(pairs_view(self.entries@));
        }
        match position_of(&self.entries, &key) {
            Some(i) => {
                proof {
                    lemma_first_bindings_first(pairs_view(self.entries@), i as int);
                }
                Some(&self.entries[i].1)
            },
            None => None,
        }
    }

    /// Binds `name` to `value`, replacing an earlier value.
    pub fn insert(&mut self, name: String, value: usize)
        ensures
            final(self)@ == old(self)@.insert(name@, value),
    {
        let ghost before = pairs_view(self.entries@);
        proof {
            lemma_first_bindings_domain(before);
        }
        match position_of(&self.entries, &name) {
            Some(i) => {
                let key = self.entries[i].0.clone();
                proof {
                    lemma_first_bindings_set(before, i as int, value);
                }
                self.entries.set(i, (key, value));
                proof {
                    assert(pairs_view(self.entries@) =~= before.update(i as int, (name@, value)));
                }
            },
            None => {
                proof {
                    lemma_first_bindings_push(before, name@, value);
                }
                self.entries.push((name, value));
                proof {
                    assert(pairs_view(self.entries@) =~= before.push((name@, value)));
                }
            },
        }
    }

    /// The bindings, each name once.
    pub fn pairs(&self) -> (r: Vec<(String, usize)>)
        ensures
            lists_bindings(pairs_view(r@), self@),
    {
        proof {
            assert(named_pairs_view(self.entries@) =~= pairs_view(self.entries@));
        }
        distinct_pairs(self.entries.as_slice())
    }
}

impl Clone for BindingMap {
    fn clone(&self) -> (r: Self)
        ensures
            r@ == self@,
    {
        let n = self.entries.len();
        let mut entries: Vec<(String, usize)> = Vec::new();
        let mut k: usize = 0;
        while k < n
            invariant
                n == self.entries@.len(),
                k <= n,
                entries@.len() == k,
                pairs_view(entries@) == pairs_view(self.entries@).take(k as int),
            decreases n - k,
        {
            let name = self.entries[k].0.clone();
            let ghost prior = entries@;
            entries.push((name, self.entries[k].1));
            proof {
                assert(pairs_view(entries@) =~= pairs_view(self.entries@).take(k + 1));
            }
            k = k + 1;
        }
        proof {
            assert(pairs_view(self.entries@).take(n as int) =~= pairs_view(self.entries@));
        }
        BindingMap { entries }
    }
}

impl<'a> ShapeBindingSource for &'a BindingMap {
    open spec fn binding_map(&self) -> Map<Seq<char>, usize> {
        (**self)@
    }

    fn for_each_shape_binding(&self) -> (r: Vec<(String, usize)>) {
        self.pairs()
    }

    fn lookup_shape_binding(&self, name: &str) -> (r: Option<usize>) {
        match self.get(name) {
            Some(v) => Some(*v),
            None => None,
        }
    }
}

/// Appending a new name to a list adds it to the list's map.
pub proof fn lemma_first_bindings_push(pairs: Seq<(Seq<char>, usize)>, name: Seq<char>, value: usize)
    requires
        !first_bindings(pairs).contains_key(name),
    ensures
        first_bindings(pairs.push((name, value))) == first_bindings(pairs).insert(name, value),
{
    assert(pairs.push((name, value)).drop_last() =~= pairs);
}

/// The first occurrence of a name gives its value in the list's map.
pub proof fn lemma_first_bindings_first(pairs: Seq<(Seq<char>, usize)>, i: int)
    requires
        0 <= i < pairs.len(),
        forall|j: int| 0 <= j < i ==> #[trigger] pairs[j].0 != pairs[i].0,
    ensures
        first_bindings(pairs).contains_key(pairs[i].0),
        first_bindings(pairs)[pairs[i].0] == pairs[i].1,
    decreases pairs.len(),
{
    let init = pairs.drop_last();
    lemma_first_bindings_domain(init);
    if i < pairs.len() - 1 {
        assert forall|j: int| 0 <= j < i implies #[trigger] init[j].0 != init[i].0 by {
            assert(pairs[j].0 != pairs[i].0);
        }
        lemma_first_bindings_first(init, i);
    } else if first_bindings(init).contains_key(pairs[i].0) {
        let j = choose|j: int| 0 <= j < init.len() && init[j].0 == pairs[i].0;
        assert(pairs[j].0 != pairs[i].0);
    }
}

/// Replacing the value at the first occurrence of a name replaces it in the list's map.
pub proof fn lemma_first_bindings_set(pairs: Seq<(Seq<char>, usize)>, i: int, value: usize)
    requires
        0 <= i < pairs.len(),
        forall|j: int| 0 <= j < i ==> #[trigger] pairs[j].0 != pairs[i].0,
    ensures
        first_bindings(pairs.update(i, (pairs[i].0, value))) == first_bindings(pairs).insert(
            pairs[i].0,
            value,
        ),
    decreases pairs.len(),
{
    let k = pairs[i].0;
    let q = pairs.update(i, (k, value));
    let init = pairs.drop_last();
    lemma_first_bindings_domain(init);
    if i == pairs.len() - 1 {
        assert(q.drop_last() =~= init);
        if first_bindings(init).contains_key(k) {
            let j = choose|j: int| 0 <= j < init.len() && init[j].0 == k;
            assert(pairs[j].0 != k);
        }
        assert(first_bindings(q) =~= first_bindings(pairs).insert(k, value));
    } else {
        let qi = init.update(i, (k, value));
        assert(q.drop_last() =~= qi);
        assert forall|j: int| 0 <= j < i implies #[trigger] init[j].0 != init[i].0 by {
            assert(pairs[j].0 != pairs[i].0);
        }
        lemma_first_bindings_set(init, i, value);
        lemma_first_bindings_first(init, i);
        assert(first_bindings(q) =~= first_bindings(pairs).insert(k, value));
    }
}

/// The names of a list's map are the names of the list.
pub proof fn lemma_first_bindings_domain(pairs: Seq<(Seq<char>, usize)>)
    ensures
        forall|k: Seq<char>|
            #[trigger] first_bindings(pairs).contains_key(k) <==> exists|j: int|
                0 <= j < pairs.len() && pairs[j].0 == k,
    decreases pairs.len(),
{
    if pairs.len() > 0 {
        let init = pairs.drop_last();
        lemma_first_bindings_domain(init);
        assert forall|k: Seq<char>| #[trigger]
            first_bindings(pairs).contains_key(k) <==> exists|j: int|
                0 <= j < pairs.len() && pairs[j].0 == k by {
            if exists|j: int| 0 <= j < pairs.len() && pairs[j].0 == k {
                let j = choose|j: int| 0 <= j < pairs.len() && pairs[j].0 == k;
                if j < init.len() {
                    assert(init[j].0 == k);
                }
            }
            if first_bindings(init).contains_key(k) {
                let j = choose|j: int| 0 <= j < init.len() && init[j].0 == k;
                assert(pairs[j].0 == k);
            }
        }
    }
}

/// A list with distinct names that lists a map is that map's list.
pub proof fn lemma_distinct_first_bindings(pairs: Seq<(Seq<char>, usize)>, m: Map<Seq<char>, usize>)
    requires
        lists_bindings(pairs, m),
    ensures
        first_bindings(pairs) == m,
        lists_bindings(pairs, first_bindings(pairs)),
    decreases pairs.len(),
{
    if pairs.len() == 0 {
        assert forall|k: Seq<char>| !m.contains_key(k) by {
            if m.contains_key(k) {
                let i = choose|i: int| 0 <= i < pairs.len() && pairs[i].0 == k;
            }
        }
        assert(m =~= Map::empty());
    } else {
        let init = pairs.drop_last();
        let last = pairs.last();
        let m0 = m.remove(last.0);
        assert(m.contains_key(pairs[pairs.len() - 1].0));
        assert forall|i: int, j: int| 0 <= i < j < init.len() implies #[trigger] init[i].0
            != #[trigger] init[j].0 by {
            assert(pairs[i].0 != pairs[j].0);
        }
        assert forall|i: int| 0 <= i < init.len() implies m0.contains_key(#[trigger] init[i].0)
            && m0[init[i].0] == init[i].1 by {
            assert(pairs[i].0 != pairs[pairs.len() - 1].0);
            assert(m.contains_key(pairs[i].0));
        }
        assert forall|k: Seq<char>| #[trigger] m0.contains_key(k) implies exists|i: int|
            0 <= i < init.len() && init[i].0 == k by {
            assert(m.contains_key(k));
            let i = choose|i: int| 0 <= i < pairs.len() && pairs[i].0 == k;
            assert(i != pairs.len() - 1);
            assert(init[i].0 == k);
        }
        lemma_distinct_first_bindings(init, m0);
        assert(!m0.contains_key(last.0));
        assert(first_bindings(pairs) =~= m);
    }
}

/// The bindings of `bindings`, collected into a map.
pub fn collect_binding_map<T: ShapeBindingSource>(bindings: T) -> (r: BindingMap)
    ensures
        r@ == bindings.binding_map(),
{
    let entries = bindings.for_each_shape_binding();
    proof {
        lemma_distinct_first_bindings(pairs_view(entries@), bindings.binding_map());
    }
    BindingMap { entries }
}

/// Lexicographic order of names, by code point (the order of `str`).
pub open spec fn name_less(a: Seq<char>, b: Seq<char>) -> bool
    decreases a.len(),
{
    if b.len() == 0 {
        false
    } else if a.len() == 0 {
        true
    } else if a[0] != b[0] {
        (a[0] as int) < (b[0] as int)
    } else {
        name_less(a.drop_first(), b.drop_first())
    }
}

/// The names of `pairs` increase strictly.
pub open spec fn sorted_by_name(pairs: Seq<(Seq<char>, usize)>) -> bool {
    forall|i: int, j: int|
        0 <= i < j < pairs.len() ==> name_less(#[trigger] pairs[i].0, #[trigger] pairs[j].0)
}

pub proof fn lemma_name_less_irreflexive(a: Seq<char>)
    ensures
        !name_less(a, a),
    decreases a.len(),
{
    if a.len() > 0 {
        lemma_name_less_irreflexive(a.drop_first());
    }
}

pub proof fn lemma_name_less_total(a: Seq<char>, b: Seq<char>)
    ensures
        a != b ==> name_less(a, b) || name_less(b, a),
        name_less(a, b) ==> !name_less(b, a),
    decreases a.len(),
{
    if a.len() > 0 && b.len() > 0 && a[0] == b[0] {
        lemma_name_less_total(a.drop_first(), b.drop_first());
        if a != b {
            assert(a =~= seq![a[0]] + a.drop_first());
            assert(b =~= seq![b[0]] + b.drop_first());
        }
    } else if a.len() == 0 && b.len() == 0 {
        assert(a =~= b);
    }
}

pub proof fn lemma_name_less_transitive(a: Seq<char>, b: Seq<char>, c: Seq<char>)
    requires
        name_less(a, b),
        name_less(b, c),
    ensures
        name_less(a, c),
    decreases a.len(),
{
    if a.len() > 0 && b.len() > 0 && c.len() > 0 && a[0] == b[0] && b[0] == c[0] {
        lemma_name_less_transitive(a.drop_first(), b.drop_first(), c.drop_first());
    }
}

/// Whether `a` comes before `b` in name order.
fn name_lt(a: &String, b: &String) -> (r: bool)
    ensures
        r == name_less(a@, b@),
{
    let ca = chars_of(a.as_str());
    let cb = chars_of(b.as_str());
    let la = ca.len();
    let lb = cb.len();
    let mut i: usize = 0;
    proof {
        assert(ca@.skip(0) =~= ca@);
        assert(cb@.skip(0) =~= cb@);
    }
    while i < la && i < lb && ca[i] == cb[i]
        invariant
            la == ca@.len(),
            lb == cb@.len(),
            i <= la,
            i <= lb,
            name_less(ca@, cb@) == name_less(ca@.skip(i as int), cb@.skip(i as int)),
        decreases la - i,
    {
        proof {
            let sa = ca@.skip(i as int);
            let sb = cb@.skip(i as int);
            assert(sa.drop_first() =~= ca@.skip(i + 1));
            assert(sb.drop_first() =~= cb@.skip(i + 1));
        }
        i = i + 1;
    }
    proof {
        if i < la && i < lb {
            assert(ca@.skip(i as int)[0] == ca@[i as int]);
            assert(cb@.skip(i as int)[0] == cb@[i as int]);
        }
    }
    if i == lb {
        false
    } else if i == la {
        true
    } else {
        ca[i] < cb[i]
    }
}

/// The pairs sorted by name.
fn sort_by_name(pairs: &Vec<(String, usize)>) -> (r: Vec<(String, usize)>)
    requires
        distinct_names(pairs_view(pairs@)),
    ensures
        sorted_by_name(pairs_view(r@)),
        pairs_view(r@).len() == pairs_view(pairs@).len(),
        forall|x: (Seq<char>, usize)| #[trigger]
            pairs_view(r@).contains(x) <==> pairs_view(pairs@).contains(x),
{
    let ghost src = pairs_view(pairs@);
    let n = pairs.len();
    let mut out: Vec<(String, usize)> = Vec::new();
    let mut k: usize = 0;
    while k < n
        invariant
            n == pairs@.len(),
            src == pairs_view(pairs@),
            distinct_names(src),
            k <= n,
            out@.len() == k,
            sorted_by_name(pairs_view(out@)),
            forall|x: (Seq<char>, usize)| #[trigger]
                pairs_view(out@).contains(x) <==> src.take(k as int).contains(x),
        decreases n - k,
    {
        let ghost cur = pairs_view(out@);
        let name = pairs[k].0.clone();
        let value = pairs[k].1;
        let ghost x = (name@, value);
        assert(x == src[k as int]);
        proof {
            assert forall|i: int| 0 <= i < cur.len() implies #[trigger] cur[i].0 != x.0 by {
                assert(cur.contains(cur[i]));
                assert(src.take(k as int).contains(cur[i]));
                let j = choose|j: int| 0 <= j < k && src.take(k as int)[j] == cur[i];
                assert(src[j] == cur[i]);
            }
        }
        let m = out.len();
        let mut pos: usize = 0;
        while pos < m && !name_lt(&name, &out[pos].0)
            invariant
                m == out@.len(),
                pos <= m,
                cur == pairs_view(out@),
                x.0 == name@,
                forall|i: int| 0 <= i < pos ==> !name_less(x.0, #[trigger] cur[i].0),
            decreases m - pos,
        {
            pos = pos + 1;
        }
        out.insert(pos, (name, value));
        proof {
            let next = pairs_view(out@);
            assert(next =~= cur.insert(pos as int, x));
            assert forall|i: int, j: int| 0 <= i < j < next.len() implies name_less(
                #[trigger] next[i].0,
                #[trigger] next[j].0,
            ) by {
                if i < pos {
                    lemma_name_less_total(x.0, cur[i].0);
                    if j == pos {
                    } else {
                        lemma_name_less_total(x.0, cur[i].0);
                        if j - 1 >= pos {
                            lemma_name_less_total(cur[i].0, x.0);
                        }
                    }
                } else if i == pos {
                    if j - 1 > pos {
                        lemma_name_less_transitive(x.0, cur[pos as int].0, cur[j - 1].0);
                    }
                }
            }
            assert(src.take(k + 1) =~= src.take(k as int).push(x));
            assert forall|y: (Seq<char>, usize)| #[trigger]
                next.contains(y) <==> src.take(k + 1).contains(y) by {
                if next.contains(y) {
                    let i = choose|i: int| 0 <= i < next.len() && next[i] == y;
                    if i < pos {
                        assert(cur.contains(y));
                    } else if i > pos {
                        assert(cur[i - 1] == y);
                        assert(cur.contains(y));
                    }
                    if y != x {
                        let j = choose|j: int| 0 <= j < k && src.take(k as int)[j] == y;
                        assert(src.take(k + 1)[j] == y);
                    } else {
                        assert(src.take(k + 1)[k as int] == y);
                    }
                }
                let t1 = src.take(k + 1);
                if t1.contains(y) {
                    let j = choose|j: int| 0 <= j < t1.len() && t1[j] == y;
                    if j < k {
                        assert(src.take(k as int)[j] == y);
                        assert(cur.contains(y));
                        let i = choose|i: int| 0 <= i < cur.len() && cur[i] == y;
                        if i < pos {
                            assert(next[i] == y);
                        } else {
                            assert(next[i + 1] == y);
                        }
                    } else {
                        assert(next[pos as int] == y);
                    }
                }
            }
        }
        k = k + 1;
    }
    proof {
        assert(src.take(n as int) =~= src);
    }
    out
}

/// The bindings of `bindings`, sorted by name.
pub fn collect_sorted_binding_list<T: ShapeBindingSource>(bindings: T) -> (r: Vec<(String, usize)>)
    ensures
        lists_bindings(pairs_view(r@), bindings.binding_map()),
        sorted_by_name(pairs_view(r@)),
{
    sorted_bindings(&bindings)
}

/// The bindings of `bindings`, sorted by name.
pub(crate) fn sorted_bindings<T: ShapeBindingSource>(bindings: &T) -> (r: Vec<(String, usize)>)
    ensures
        lists_bindings(pairs_view(r@), bindings.binding_map()),
        sorted_by_name(pairs_view(r@)),
{
    let pairs = bindings.for_each_shape_binding();
    let sorted = sort_by_name(&pairs);
    proof {
        let m = bindings.binding_map();
        let src = pairs_view(pairs@);
        let out = pairs_view(sorted@);
        assert forall|i: int, j: int| 0 <= i < j < out.len() implies #[trigger] out[i].0
            != #[trigger] out[j].0 by {
            lemma_name_less_irreflexive(out[i].0);
        }
        assert forall|i: int| 0 <= i < out.len() implies m.contains_key(#[trigger] out[i].0)
            && m[out[i].0] == out[i].1 by {
            assert(out.contains(out[i]));
            let j = choose|j: int| 0 <= j < src.len() && src[j] == out[i];
        }
        assert forall|key: Seq<char>| #[trigger] m.contains_key(key) implies exists|i: int|
            0 <= i < out.len() && out[i].0 == key by {
            let j = choose|j: int| 0 <= j < src.len() && src[j].0 == key;
            assert(src.contains(src[j]));
            assert(out.contains(src[j]));
        }
    }
    sorted
}

/// The value that `bindings` binds to `name`, if any.
pub fn lookup_binding<T: ShapeBindingSource>(bindings: T, name: &str) -> (r: Option<usize>)
    ensures
        r == lookup_of(bindings.binding_map(), name@),
{
    bindings.lookup_shape_binding(name)
}

} // verus!
