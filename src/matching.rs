//! Matching a concrete shape against a pattern.
//!
//! The components are walked in order. Each non-ellipsis component reads one
//! dimension of the shape; the ellipsis takes the dimensions that the others
//! leave. A name is resolved first among the names resolved so far in this
//! match, then among the external bindings; an external value is copied into
//! the result the first time its name is referenced.

use vstd::prelude::*;
use vstd::arithmetic::div_mod::{lemma_div_basics, lemma_div_basics_5, lemma_small_mod};
use crate::bindings::{
    BindingMap, ShapeBindingSource, lists_bindings, lookup_binding, lookup_of, pairs_view,
    sorted_bindings,
    sorted_by_name,
};
use crate::pattern::{
    ComponentView, PatternComponent, ShapePattern, ShapePatternError, ellipsis_count,
    ellipsis_position, lemma_ellipsis_count_prefix, lemma_ellipsis_position, names_view,
    non_ellipsis_count, render, valid_components, components_view,
};

verus! {

/// Why a shape does not match a pattern.
pub enum MatchFailure {
    /// The shape has fewer dimensions than the pattern's non-ellipsis
    /// components or, when the pattern has no ellipsis, a different number.
    TooFewDimensions,
    ConstraintMismatch { name: Seq<char>, bound: usize, observed: usize },
    MultipleUnboundFactors { factors: Seq<Seq<char>> },
    CompositeMismatch {
        factors: Seq<Seq<char>>,
        unbound: Option<Seq<char>>,
        product: int,
        observed: usize,
    },
}

/// The value of `name`: among the names resolved so far, else among the external bindings.
pub open spec fn resolve(
    export: Map<Seq<char>, usize>,
    ext: Map<Seq<char>, usize>,
    name: Seq<char>,
) -> Option<usize> {
    if export.contains_key(name) {
        Some(export[name])
    } else {
        lookup_of(ext, name)
    }
}

/// `export` after a reference to `name`: an external value is copied in.
pub open spec fn promote(
    export: Map<Seq<char>, usize>,
    ext: Map<Seq<char>, usize>,
    name: Seq<char>,
) -> Map<Seq<char>, usize> {
    if !export.contains_key(name) && ext.contains_key(name) {
        export.insert(name, ext[name])
    } else {
        export
    }
}

/// `export` after references to each of `names`.
pub open spec fn promote_all(
    export: Map<Seq<char>, usize>,
    ext: Map<Seq<char>, usize>,
    names: Seq<Seq<char>>,
) -> Map<Seq<char>, usize>
    decreases names.len(),
{
    if names.len() == 0 {
        export
    } else {
        promote(promote_all(export, ext, names.drop_last()), ext, names.last())
    }
}

/// How many of `names` have no value.
pub open spec fn unresolved_count(
    export: Map<Seq<char>, usize>,
    ext: Map<Seq<char>, usize>,
    names: Seq<Seq<char>>,
) -> nat
    decreases names.len(),
{
    if names.len() == 0 {
        0
    } else {
        unresolved_count(export, ext, names.drop_last()) + if resolve(
            export,
            ext,
            names.last(),
        ) is None {
            1nat
        } else {
            0nat
        }
    }
}

/// The first of `names` that has no value.
pub open spec fn first_unresolved(
    export: Map<Seq<char>, usize>,
    ext: Map<Seq<char>, usize>,
    names: Seq<Seq<char>>,
) -> Seq<char>
    decreases names.len(),
{
    if names.len() == 0 {
        Seq::empty()
    } else if unresolved_count(export, ext, names.drop_last()) > 0 {
        first_unresolved(export, ext, names.drop_last())
    } else {
        names.last()
    }
}

/// The product of the values of those of `names` that have one.
pub open spec fn known_product(
    export: Map<Seq<char>, usize>,
    ext: Map<Seq<char>, usize>,
    names: Seq<Seq<char>>,
) -> int
    decreases names.len(),
{
    if names.len() == 0 {
        1
    } else {
        known_product(export, ext, names.drop_last()) * match resolve(export, ext, names.last()) {
            Some(v) => v as int,
            None => 1,
        }
    }
}

/// The resolved names after one component that reads the dimension `v`.
///
/// A composite group with one factor of unknown value infers it as `v`
/// divided by the product of the known factors, which must be non-zero and
/// divide `v` exactly; with every factor known, their product must equal `v`.
pub open spec fn step(
    export: Map<Seq<char>, usize>,
    ext: Map<Seq<char>, usize>,
    c: ComponentView,
    v: usize,
) -> Result<Map<Seq<char>, usize>, MatchFailure> {
    match c {
        ComponentView::Ellipsis => Ok(export),
        ComponentView::Dim(name) => match resolve(export, ext, name) {
            Some(bound) => if bound == v {
                Ok(promote(export, ext, name))
            } else {
                Err(MatchFailure::ConstraintMismatch { name, bound, observed: v })
            },
            None => Ok(export.insert(name, v)),
        },
        ComponentView::Composite(names) => {
            let u = unresolved_count(export, ext, names);
            let p = known_product(export, ext, names);
            let m = promote_all(export, ext, names);
            if u > 1 {
                Err(MatchFailure::MultipleUnboundFactors { factors: names })
            } else if u == 1 {
                let f = first_unresolved(export, ext, names);
                if p != 0 && (v as int) % p == 0 {
                    Ok(m.insert(f, ((v as int) / p) as usize))
                } else {
                    Err(
                        MatchFailure::CompositeMismatch {
                            factors: names,
                            unbound: Some(f),
                            product: p,
                            observed: v,
                        },
                    )
                }
            } else if p == v {
                Ok(m)
            } else {
                Err(
                    MatchFailure::CompositeMismatch {
                        factors: names,
                        unbound: None,
                        product: p,
                        observed: v,
                    },
                )
            }
        },
    }
}

/// The index of the dimension that component `k` reads.
pub open spec fn shape_index(cs: Seq<ComponentView>, k: int, dims: int) -> int {
    if ellipsis_count(cs.take(k)) > 0 {
        k - 1 + (dims - non_ellipsis_count(cs))
    } else {
        k
    }
}

/// The resolved names after the first `k` components.
pub open spec fn walk(
    cs: Seq<ComponentView>,
    shape: Seq<usize>,
    ext: Map<Seq<char>, usize>,
    k: nat,
) -> Result<Map<Seq<char>, usize>, MatchFailure>
    decreases k,
{
    if k == 0 {
        Ok(Map::empty())
    } else {
        match walk(cs, shape, ext, (k - 1) as nat) {
            Err(f) => Err(f),
            Ok(m) => step(m, ext, cs[k - 1], shape[shape_index(cs, k - 1, shape.len() as int)]),
        }
    }
}

/// The outcome of matching `shape` against the components `cs` with external bindings `ext`:
/// every name resolved or inferred, or why the match fails.
pub open spec fn match_outcome(
    cs: Seq<ComponentView>,
    shape: Seq<usize>,
    ext: Map<Seq<char>, usize>,
) -> Result<Map<Seq<char>, usize>, MatchFailure> {
    if non_ellipsis_count(cs) > shape.len() || (ellipsis_count(cs) == 0 && non_ellipsis_count(cs)
        != shape.len()) {
        Err(MatchFailure::TooFewDimensions)
    } else {
        walk(cs, shape, ext, cs.len())
    }
}

/// The half-open range of dimensions that the ellipsis takes, if there is one.
pub open spec fn ellipsis_span(cs: Seq<ComponentView>, dims: int) -> Option<(int, int)> {
    match ellipsis_position(cs) {
        Some(p) => Some((p, p + dims - non_ellipsis_count(cs))),
        None => None,
    }
}

/// The result of a successful match.
#[derive(Debug, Clone)]
pub struct ShapeMatch {
    /// The shape that was matched.
    pub shape: Vec<usize>,
    /// Every name that the match referenced or inferred, with its value.
    pub bindings: BindingMap,
    /// The dimensions that the ellipsis took, if the pattern has one.
    pub ellipsis_range: Option<std::ops::Range<usize>>,
}

impl ShapeMatch {
    /// The values of `keys`, in order.
    ///
    /// Every key must have been bound by the match; selecting a name that the
    /// match did not bind is a contract violation, and panics.
    pub fn select<const D: usize>(&self, keys: [&str; D]) -> (r: [usize; D])
        requires
            forall|i: int| 0 <= i < D ==> self.bindings@.contains_key(#[trigger] keys[i]@),
        ensures
            forall|i: int| 0 <= i < D ==> #[trigger] r[i] == self.bindings@[keys[i]@],
    {
        let mut result = [0usize; D];
        let mut i: usize = 0;
        while i < D
            invariant
                i <= D,
                forall|j: int| 0 <= j < D ==> self.bindings@.contains_key(#[trigger] keys[j]@),
                forall|j: int| 0 <= j < i ==> #[trigger] result[j] == self.bindings@[keys[j]@],
            decreases D - i,
        {
            let value = lookup_binding(&self.bindings, keys[i]).unwrap();
            result.set(i, value);
            i = i + 1;
        }
        result
    }
}

pub open spec fn range_view(r: Option<std::ops::Range<usize>>) -> Option<(int, int)> {
    match r {
        Some(range) => Some((range.start as int, range.end as int)),
        None => None,
    }
}

/// The context that every match error carries: the shape, the pattern's
/// canonical text, and the external bindings sorted by name.
pub open spec fn error_context(
    shape: Vec<usize>,
    pattern: String,
    bindings: Vec<(String, usize)>,
    cs: Seq<ComponentView>,
    dims: Seq<usize>,
    ext: Map<Seq<char>, usize>,
) -> bool {
    &&& shape@ == dims
    &&& pattern@ == render(cs)
    &&& lists_bindings(pairs_view(bindings@), ext)
    &&& sorted_by_name(pairs_view(bindings@))
}

/// `e` reports the failure `f` of matching `dims` against `cs` with `ext`.
pub open spec fn reports(
    e: ShapePatternError,
    f: MatchFailure,
    cs: Seq<ComponentView>,
    dims: Seq<usize>,
    ext: Map<Seq<char>, usize>,
) -> bool {
    match (e, f) {
        (
            ShapePatternError::TooFewDimensions { shape, pattern, bindings },
            MatchFailure::TooFewDimensions,
        ) => error_context(shape, pattern, bindings, cs, dims, ext),
        (
            ShapePatternError::ConstraintMismatch { shape, pattern, bindings, name, bound, observed },
            MatchFailure::ConstraintMismatch { name: n, bound: b, observed: o },
        ) => error_context(shape, pattern, bindings, cs, dims, ext) && name@ == n && bound == b
            && observed == o,
        (
            ShapePatternError::MultipleUnboundFactors { shape, pattern, bindings, factors },
            MatchFailure::MultipleUnboundFactors { factors: fs },
        ) => error_context(shape, pattern, bindings, cs, dims, ext) && names_view(factors@) == fs,
        (
            ShapePatternError::CompositeMismatch {
                shape,
                pattern,
                bindings,
                factors,
                unbound,
                product,
                observed,
            },
            MatchFailure::CompositeMismatch { factors: fs, unbound: u, product: p, observed: o },
        ) => {
            &&& error_context(shape, pattern, bindings, cs, dims, ext)
            &&& names_view(factors@) == fs
            &&& match (unbound, u) {
                (Some(a), Some(b)) => a@ == b,
                (None, None) => true,
                _ => false,
            }
            &&& match product {
                Some(q) => q == p,
                None => p > usize::MAX,
            }
            &&& observed == o
        },
        _ => false,
    }
}

/// Resolving again after references only copies external values: nothing changes.
pub proof fn lemma_resolve_promote_all(
    export: Map<Seq<char>, usize>,
    ext: Map<Seq<char>, usize>,
    names: Seq<Seq<char>>,
    name: Seq<char>,
)
    ensures
        resolve(promote_all(export, ext, names), ext, name) == resolve(export, ext, name),
    decreases names.len(),
{
    if names.len() > 0 {
        lemma_resolve_promote_all(export, ext, names.drop_last(), name);
    }
}

/// The unresolved count of a prefix never exceeds that of the whole.
pub proof fn lemma_unresolved_count_prefix(
    export: Map<Seq<char>, usize>,
    ext: Map<Seq<char>, usize>,
    names: Seq<Seq<char>>,
    k: int,
)
    requires
        0 <= k <= names.len(),
    ensures
        unresolved_count(export, ext, names.take(k)) <= unresolved_count(export, ext, names),
    decreases names.len() - k,
{
    if k < names.len() {
        lemma_unresolved_count_prefix(export, ext, names, k + 1);
        assert(names.take(k + 1).drop_last() =~= names.take(k));
    } else {
        assert(names.take(k) =~= names);
    }
}

/// A prefix of `k` components has at most as many non-ellipses as the whole.
pub proof fn lemma_non_ellipsis_prefix(cs: Seq<ComponentView>, k: int)
    requires
        0 <= k <= cs.len(),
    ensures
        k - ellipsis_count(cs.take(k)) <= non_ellipsis_count(cs),
    decreases cs.len() - k,
{
    if k < cs.len() {
        lemma_non_ellipsis_prefix(cs, k + 1);
        assert(cs.take(k + 1).drop_last() =~= cs.take(k));
    } else {
        assert(cs.take(k) =~= cs);
    }
}

/// Once the walk fails, it fails the same way to the end.
pub proof fn lemma_walk_stops(
    cs: Seq<ComponentView>,
    shape: Seq<usize>,
    ext: Map<Seq<char>, usize>,
    k: nat,
    n: nat,
)
    requires
        k <= n,
        walk(cs, shape, ext, k) is Err,
    ensures
        walk(cs, shape, ext, n) == walk(cs, shape, ext, k),
    decreases n - k,
{
    if k < n {
        lemma_walk_stops(cs, shape, ext, k, (n - 1) as nat);
    }
}

/// Looks `name` up among the names resolved so far, then among the external
/// bindings, copying an external value in.
fn read_through<B: ShapeBindingSource>(ext: &B, export: &mut BindingMap, name: &String) -> (r:
    Option<usize>)
    ensures
        r == resolve(old(export)@, ext.binding_map(), name@),
        final(export)@ == promote(old(export)@, ext.binding_map(), name@),
{
    match export.get(name.as_str()) {
        Some(v) => Some(*v),
        None => match ext.lookup_shape_binding(name.as_str()) {
            Some(v) => {
                export.insert(name.clone(), v);
                Some(v)
            },
            None => None,
        },
    }
}

/// Multiplies a product by `value`, `None` standing for a product beyond `usize::MAX`.
fn times(product: Option<usize>, value: usize, Ghost(p): Ghost<int>) -> (r: Option<usize>)
    requires
        p >= 0,
        match product {
            Some(q) => q == p,
            None => p > usize::MAX,
        },
    ensures
        match r {
            Some(q) => q == p * value,
            None => p * value > usize::MAX,
        },
{
    if value == 0 {
        assert(p * value == 0) by (nonlinear_arith)
            requires
                value == 0,
        ;
        Some(0)
    } else {
        match product {
            Some(q) => q.checked_mul(value),
            None => {
                assert(p * value > usize::MAX) by (nonlinear_arith)
                    requires
                        p > usize::MAX,
                        value >= 1,
                ;
                None
            },
        }
    }
}

impl ShapePattern {
    /// The shape, the canonical text and the sorted external bindings, for an error.
    fn error_parts<B: ShapeBindingSource>(&self, shape: &[usize], bindings: &B) -> (r: (
        Vec<usize>,
        String,
        Vec<(String, usize)>,
    ))
        ensures
            error_context(r.0, r.1, r.2, self@, shape@, bindings.binding_map()),
    {
        (vstd::slice::slice_to_vec(shape), self.to_display_string(), sorted_bindings(bindings))
    }

    /// Matches one named dimension, of value `v`.
    fn match_dim<B: ShapeBindingSource>(
        &self,
        shape: &[usize],
        bindings: &B,
        export: &mut BindingMap,
        name: &String,
        v: usize,
    ) -> (r: Result<(), ShapePatternError>)
        ensures
            match step(old(export)@, bindings.binding_map(), ComponentView::Dim(name@), v) {
                Ok(m) => r is Ok && final(export)@ == m,
                Err(f) => r matches Err(e) && reports(e, f, self@, shape@, bindings.binding_map()),
            },
    {
        match read_through(bindings, export, name) {
            Some(bound) => {
                if bound != v {
                    let (s, p, b) = self.error_parts(shape, bindings);
                    return Err(
                        ShapePatternError::ConstraintMismatch {
                            shape: s,
                            pattern: p,
                            bindings: b,
                            name: name.clone(),
                            bound,
                            observed: v,
                        },
                    );
                }
            },
            None => {
                export.insert(name.clone(), v);
            },
        }
        Ok(())
    }

    /// Matches one composite group, of value `v`.
    fn match_composite<B: ShapeBindingSource>(
        &self,
        shape: &[usize],
        bindings: &B,
        export: &mut BindingMap,
        names: &Vec<String>,
        v: usize,
    ) -> (r: Result<(), ShapePatternError>)
        ensures
            match step(
                old(export)@,
                bindings.binding_map(),
                ComponentView::Composite(names_view(names@)),
                v,
            ) {
                Ok(m) => r is Ok && final(export)@ == m,
                Err(f) => r matches Err(e) && reports(e, f, self@, shape@, bindings.binding_map()),
            },
    {
        let ghost ext = bindings.binding_map();
        let ghost before = export@;
        let ghost nv = names_view(names@);
        let mut product: Option<usize> = Some(1);
        let mut unbound: Option<usize> = None;
        let nn = names.len();
        let mut j: usize = 0;
        while j < nn
            invariant
                ext == bindings.binding_map(),
                before == old(export)@,
                nn == names@.len(),
                nv == names_view(names@),
                j <= nn,
                export@ == promote_all(before, ext, nv.take(j as int)),
                unresolved_count(before, ext, nv.take(j as int)) == if unbound is Some {
                    1nat
                } else {
                    0nat
                },
                unbound matches Some(u) ==> u < j && nv[u as int] == first_unresolved(
                    before,
                    ext,
                    nv.take(j as int),
                ),
                known_product(before, ext, nv.take(j as int)) >= 0,
                match product {
                    Some(q) => q == known_product(before, ext, nv.take(j as int)),
                    None => known_product(before, ext, nv.take(j as int)) > usize::MAX,
                },
            decreases nn - j,
        {
            let ghost pre = nv.take(j as int);
            proof {
                assert(nv.take(j + 1).drop_last() =~= pre);
                lemma_resolve_promote_all(before, ext, pre, nv[j as int]);
            }
            let ghost p0 = known_product(before, ext, pre);
            match read_through(bindings, export, &names[j]) {
                Some(value) => {
                    product = times(product, value, Ghost(p0));
                    proof {
                        assert(p0 * value >= 0) by (nonlinear_arith)
                            requires
                                p0 >= 0,
                        ;
                    }
                },
                None => {
                    if unbound.is_some() {
                        proof {
                            assert(nv.take(j + 1).last() == nv[j as int]);
                            assert(unresolved_count(before, ext, nv.take(j + 1)) == 2);
                            lemma_unresolved_count_prefix(before, ext, nv, j + 1);
                        }
                        let (s, p, b) = self.error_parts(shape, bindings);
                        let factors = names.clone();
                        assert(names_view(factors@) =~= nv);
                        return Err(
                            ShapePatternError::MultipleUnboundFactors {
                                shape: s,
                                pattern: p,
                                bindings: b,
                                factors,
                            },
                        );
                    }
                    unbound = Some(j);
                },
            }
            j = j + 1;
        }
        proof {
            assert(nv.take(nn as int) =~= nv);
        }
        let ghost p = known_product(before, ext, nv);
        match unbound {
            Some(u) => {
                let (ok, quotient) = match product {
                    Some(q) => if q != 0 && v % q == 0 {
                        proof {
                            lemma_div_basics_5(v as int, q as int);
                        }
                        (true, v / q)
                    } else {
                        (false, 0)
                    },
                    None => {
                        proof {
                            lemma_div_basics(p);
                            lemma_small_mod(v as nat, p as nat);
                        }
                        (v == 0, 0)
                    },
                };
                if !ok {
                    let (s, pt, b) = self.error_parts(shape, bindings);
                    let factors = names.clone();
                    assert(names_view(factors@) =~= nv);
                    return Err(
                        ShapePatternError::CompositeMismatch {
                            shape: s,
                            pattern: pt,
                            bindings: b,
                            factors,
                            unbound: Some(names[u].clone()),
                            product,
                            observed: v,
                        },
                    );
                }
                export.insert(names[u].clone(), quotient);
            },
            None => {
                let equal = match product {
                    Some(q) => q == v,
                    None => false,
                };
                if !equal {
                    let (s, pt, b) = self.error_parts(shape, bindings);
                    let factors = names.clone();
                    assert(names_view(factors@) =~= nv);
                    return Err(
                        ShapePatternError::CompositeMismatch {
                            shape: s,
                            pattern: pt,
                            bindings: b,
                            factors,
                            unbound: None,
                            product,
                            observed: v,
                        },
                    );
                }
            },
        }
        Ok(())
    }

    /// Matches `shape` against the pattern, with `bindings` giving values of
    /// names known in advance.
    ///
    /// On success the result holds a copy of the shape, every name that the
    /// match referenced or inferred, and the range that the ellipsis took.
    /// Without an ellipsis the shape must have exactly one dimension per
    /// component. Errors carry the shape, the pattern's canonical text and the
    /// external bindings sorted by name.
    pub fn match_bindings<B: ShapeBindingSource>(&self, shape: &[usize], bindings: B) -> (r:
        Result<ShapeMatch, ShapePatternError>)
        ensures
            match r {
                Ok(m) => {
                    &&& match_outcome(self@, shape@, bindings.binding_map()) == Ok::<
                        Map<Seq<char>, usize>,
                        MatchFailure,
                    >(m.bindings@)
                    &&& m.shape@ == shape@
                    &&& range_view(m.ellipsis_range) == ellipsis_span(self@, shape@.len() as int)
                },
                Err(e) => match_outcome(self@, shape@, bindings.binding_map()) matches Err(f)
                    && reports(e, f, self@, shape@, bindings.binding_map()),
            },
    {
        let ghost cs = self@;
        let ghost ext = bindings.binding_map();
        let components = self.components();
        let ellipsis_pos = self.ellipsis_pos();
        proof {
            lemma_ellipsis_position(cs);
        }
        let dims = shape.len();
        let n = components.len();
        let non_e = match ellipsis_pos {
            Some(_) => n - 1,
            None => n,
        };
        if non_e > dims || (ellipsis_pos.is_none() && non_e != dims) {
            let (s, p, b) = self.error_parts(shape, &bindings);
            return Err(ShapePatternError::TooFewDimensions { shape: s, pattern: p, bindings: b });
        }
        let extra = dims - non_e;
        let ellipsis_range = match ellipsis_pos {
            Some(pos) => Some(pos..pos + extra),
            None => None,
        };
        let mut export = BindingMap::new();
        let mut i: usize = 0;
        let mut k: usize = 0;
        while k < n
            invariant
                cs == self@,
                ext == bindings.binding_map(),
                components_view(components@) == cs,
                valid_components(cs),
                n == cs.len(),
                dims == shape@.len(),
                non_e == non_ellipsis_count(cs),
                non_e <= dims,
                ellipsis_count(cs) == 0 ==> non_e == dims,
                extra == dims - non_e,
                k <= n,
                i == shape_index(cs, k as int, dims as int),
                walk(cs, shape@, ext, k as nat) == Ok::<Map<Seq<char>, usize>, MatchFailure>(
                    export@,
                ),
            decreases n - k,
        {
            proof {
                assert(cs.take(k + 1).drop_last() =~= cs.take(k as int));
                lemma_ellipsis_count_prefix(cs, k + 1);
                lemma_non_ellipsis_prefix(cs, k + 1);
                assert(cs[k as int] == components@[k as int]@);
            }
            match &components[k] {
                PatternComponent::Ellipsis => {
                    i = i + extra;
                },
                PatternComponent::Dim(name) => {
                    let outcome = self.match_dim(shape, &bindings, &mut export, name, shape[i]);
                    if let Err(e) = outcome {
                        proof {
                            lemma_walk_stops(cs, shape@, ext, (k + 1) as nat, n as nat);
                        }
                        return Err(e);
                    }
                    i = i + 1;
                },
                PatternComponent::Composite(names) => {
                    proof {
                        assert(cs[k as int] == ComponentView::Composite(names_view(names@)));
                    }
                    let outcome = self.match_composite(shape, &bindings, &mut export, names, shape[i]);
                    if let Err(e) = outcome {
                        proof {
                            lemma_walk_stops(cs, shape@, ext, (k + 1) as nat, n as nat);
                        }
                        return Err(e);
                    }
                    i = i + 1;
                },
            }
            k = k + 1;
        }
        proof {
            lemma_ellipsis_position(cs);
        }
        Ok(ShapeMatch { shape: vstd::slice::slice_to_vec(shape), bindings: export, ellipsis_range })
    }
}

/// Without an ellipsis, a pattern of `k` components matches only shapes of `k`
/// dimensions; a shape of any other length fails with `TooFewDimensions`.
pub proof fn lemma_rank_without_ellipsis(
    cs: Seq<ComponentView>,
    shape: Seq<usize>,
    ext: Map<Seq<char>, usize>,
)
    requires
        ellipsis_count(cs) == 0,
    ensures
        match_outcome(cs, shape, ext) is Ok ==> shape.len() == cs.len(),
        shape.len() != cs.len() ==> match_outcome(cs, shape, ext) == Err::<
            Map<Seq<char>, usize>,
            MatchFailure,
        >(MatchFailure::TooFewDimensions),
{
}

} // verus!
