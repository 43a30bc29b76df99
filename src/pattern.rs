//! Structured shape patterns: components, the pattern type, its canonical
//! rendering, and the errors of parsing and matching.

use vstd::prelude::*;
use vstd::string::StringExecFns;

verus! {

/// One element of a shape pattern.
#[derive(Debug, PartialEq, Eq, Hash)]
pub enum PatternComponent {
    /// A single dimension bound to a name.
    Dim(String),
    /// Zero or more contiguous dimensions.
    Ellipsis,
    /// One dimension that is the product of the named factors.
    Composite(Vec<String>),
}

/// The mathematical form of a [`PatternComponent`].
pub enum ComponentView {
    Dim(Seq<char>),
    Ellipsis,
    Composite(Seq<Seq<char>>),
}

pub open spec fn names_view(names: Seq<String>) -> Seq<Seq<char>> {
    names.map_values(|n: String| n@)
}

impl View for PatternComponent {
    type V = ComponentView;

    open spec fn view(&self) -> ComponentView {
        match self {
            PatternComponent::Dim(n) => ComponentView::Dim(n@),
            PatternComponent::Ellipsis => ComponentView::Ellipsis,
            PatternComponent::Composite(ns) => ComponentView::Composite(names_view(ns@)),
        }
    }
}

pub open spec fn components_view(cs: Seq<PatternComponent>) -> Seq<ComponentView> {
    cs.map_values(|c: PatternComponent| c@)
}

/// How many components of `cs` are ellipses.
pub open spec fn ellipsis_count(cs: Seq<ComponentView>) -> nat
    decreases cs.len(),
{
    if cs.len() == 0 {
        0
    } else {
        ellipsis_count(cs.drop_last()) + if cs.last() is Ellipsis {
            1nat
        } else {
            0nat
        }
    }
}

/// How many components of `cs` are not ellipses.
pub open spec fn non_ellipsis_count(cs: Seq<ComponentView>) -> int {
    cs.len() - ellipsis_count(cs)
}

/// The index of the first ellipsis of `cs`, if any.
pub open spec fn ellipsis_position(cs: Seq<ComponentView>) -> Option<int>
    decreases cs.len(),
{
    if cs.len() == 0 {
        None
    } else {
        match ellipsis_position(cs.drop_last()) {
            Some(p) => Some(p),
            None => if cs.last() is Ellipsis {
                Some(cs.len() - 1)
            } else {
                None
            },
        }
    }
}

/// A sequence of components that a pattern may hold: at most one ellipsis.
pub open spec fn valid_components(cs: Seq<ComponentView>) -> bool {
    ellipsis_count(cs) <= 1
}

/// The parts joined by single spaces.
pub open spec fn join_spaced(parts: Seq<Seq<char>>) -> Seq<char>
    decreases parts.len(),
{
    if parts.len() == 0 {
        Seq::empty()
    } else if parts.len() == 1 {
        parts[0]
    } else {
        join_spaced(parts.drop_last()) + seq![' '] + parts.last()
    }
}

/// The canonical surface syntax of one component.
pub open spec fn render_component(c: ComponentView) -> Seq<char> {
    match c {
        ComponentView::Dim(n) => n,
        ComponentView::Ellipsis => seq!['.', '.', '.'],
        ComponentView::Composite(ns) => seq!['('] + join_spaced(ns) + seq![')'],
    }
}

/// The canonical surface syntax of a pattern: components separated by single spaces.
pub open spec fn render(cs: Seq<ComponentView>) -> Seq<char> {
    join_spaced(cs.map_values(|c: ComponentView| render_component(c)))
}

/// A parsed shape pattern: an ordered list of components with at most one ellipsis.
#[derive(Debug, PartialEq, Eq, Hash)]
pub struct ShapePattern {
    ellipsis_pos: Option<usize>,
    components: Vec<PatternComponent>,
}

impl View for ShapePattern {
    type V = Seq<ComponentView>;

    closed spec fn view(&self) -> Seq<ComponentView> {
        components_view(self.components@)
    }
}

impl ShapePattern {
    #[verifier::type_invariant]
    spec fn inv(self) -> bool {
        &&& valid_components(self@)
        &&& match self.ellipsis_pos {
            Some(p) => ellipsis_position(self@) == Some(p as int),
            None => ellipsis_position(self@) is None,
        }
    }
}

impl Clone for PatternComponent {
    fn clone(&self) -> (r: Self)
        ensures
            r@ == self@,
    {
        match self {
            PatternComponent::Dim(n) => PatternComponent::Dim(n.clone()),
            PatternComponent::Ellipsis => PatternComponent::Ellipsis,
            PatternComponent::Composite(ns) => {
                let copy = ns.clone();
                assert(names_view(copy@) =~= names_view(ns@));
                PatternComponent::Composite(copy)
            },
        }
    }
}

impl Clone for ShapePattern {
    fn clone(&self) -> (r: Self)
        ensures
            r@ == self@,
    {
        proof {
            use_type_invariant(self);
        }
        let components = self.components.clone();
        assert(components_view(components@) =~= components_view(self.components@));
        ShapePattern { ellipsis_pos: self.ellipsis_pos, components }
    }
}

/// Errors of parsing a pattern and of matching a shape against it.
#[derive(Debug, Clone, PartialEq, Eq, Hash)]
pub enum ShapePatternError {
    /// The text does not follow the pattern grammar.
    ParseError { pattern: String },
    /// The components are well formed but the pattern is not (more than one ellipsis).
    InvalidPattern { pattern: String, message: String },
    /// The shape has fewer dimensions than the pattern's non-ellipsis
    /// components or, when the pattern has no ellipsis, a different number.
    TooFewDimensions { shape: Vec<usize>, pattern: String, bindings: Vec<(String, usize)> },
    /// A named dimension is bound to a value other than the one in the shape.
    ConstraintMismatch {
        shape: Vec<usize>,
        pattern: String,
        bindings: Vec<(String, usize)>,
        name: String,
        bound: usize,
        observed: usize,
    },
    /// A composite group has more than one factor with no known value.
    MultipleUnboundFactors {
        shape: Vec<usize>,
        pattern: String,
        bindings: Vec<(String, usize)>,
        factors: Vec<String>,
    },
    /// The known factors of a composite group do not divide (or do not equal) its dimension.
    /// `product` is `None` when the product of the known factors exceeds `usize::MAX`.
    CompositeMismatch {
        shape: Vec<usize>,
        pattern: String,
        bindings: Vec<(String, usize)>,
        factors: Vec<String>,
        unbound: Option<String>,
        product: Option<usize>,
        observed: usize,
    },
}

/// Appends the names, separated by single spaces.
fn push_names(out: &mut String, names: &Vec<String>)
    ensures
        final(out)@ == old(out)@ + join_spaced(names_view(names@)),
{
    let ghost start = out@;
    let ghost ns = names_view(names@);
    let n = names.len();
    let mut k: usize = 0;
    while k < n
        invariant
            n == names@.len(),
            ns == names_view(names@),
            k <= n,
            out@ == start + join_spaced(ns.take(k as int)),
        decreases n - k,
    {
        proof {
            reveal_strlit(" ");
            assert(ns.take(k + 1).drop_last() =~= ns.take(k as int));
        }
        if k > 0 {
            out.append(" ");
        }
        out.append(names[k].as_str());
        k = k + 1;
        proof {
            assert(out@ =~= start + join_spaced(ns.take(k as int)));
        }
    }
    proof {
        assert(ns.take(n as int) =~= ns);
    }
}

/// Appends the canonical syntax of one component.
fn push_component(out: &mut String, c: &PatternComponent)
    ensures
        final(out)@ == old(out)@ + render_component(c@),
{
    proof {
        reveal_strlit("...");
        reveal_strlit("(");
        reveal_strlit(")");
    }
    match c {
        PatternComponent::Dim(n) => {
            out.append(n.as_str());
        },
        PatternComponent::Ellipsis => {
            out.append("...");
            assert(out@ =~= old(out)@ + render_component(c@));
        },
        PatternComponent::Composite(ns) => {
            out.append("(");
            push_names(out, ns);
            out.append(")");
            assert(out@ =~= old(out)@ + render_component(c@));
        },
    }
}

/// The canonical syntax of a list of components.
pub fn render_components(cs: &[PatternComponent]) -> (r: String)
    ensures
        r@ == render(components_view(cs@)),
{
    let ghost parts = components_view(cs@).map_values(|c: ComponentView| render_component(c));
    let mut out = String::new();
    let n = cs.len();
    let mut k: usize = 0;
    while k < n
        invariant
            n == cs@.len(),
            parts == components_view(cs@).map_values(|c: ComponentView| render_component(c)),
            k <= n,
            out@ == join_spaced(parts.take(k as int)),
        decreases n - k,
    {
        proof {
            reveal_strlit(" ");
            assert(parts.take(k + 1).drop_last() =~= parts.take(k as int));
        }
        if k > 0 {
            out.append(" ");
        }
        push_component(&mut out, &cs[k]);
        k = k + 1;
        proof {
            assert(out@ =~= join_spaced(parts.take(k as int)));
        }
    }
    proof {
        assert(parts.take(n as int) =~= parts);
    }
    out
}

/// The number of ellipses in a prefix never exceeds the number in the whole.
pub proof fn lemma_ellipsis_count_prefix(cs: Seq<ComponentView>, k: int)
    requires
        0 <= k <= cs.len(),
    ensures
        ellipsis_count(cs.take(k)) <= ellipsis_count(cs),
    decreases cs.len() - k,
{
    if k < cs.len() {
        lemma_ellipsis_count_prefix(cs, k + 1);
        assert(cs.take(k + 1).drop_last() =~= cs.take(k));
    } else {
        assert(cs.take(k) =~= cs);
    }
}

/// Where the first ellipsis stands, and that there is none exactly when none is counted.
pub proof fn lemma_ellipsis_position(cs: Seq<ComponentView>)
    ensures
        ellipsis_position(cs) is None <==> ellipsis_count(cs) == 0,
        ellipsis_position(cs) is Some ==> ({
            let p = ellipsis_position(cs)->0;
            &&& 0 <= p < cs.len()
            &&& cs[p] is Ellipsis
            &&& ellipsis_count(cs.take(p)) == 0
            &&& ellipsis_count(cs.take(p + 1)) == 1
        }),
        forall|i: int|
            0 <= i < cs.len() && #[trigger] cs[i] is Ellipsis && valid_components(cs)
                ==> ellipsis_position(cs) == Some(i),
    decreases cs.len(),
{
    if cs.len() > 0 {
        let init = cs.drop_last();
        lemma_ellipsis_position(init);
        assert(cs.take(cs.len() - 1) =~= init);
        assert(cs.take(cs.len() as int) =~= cs);
        if let Some(p) = ellipsis_position(init) {
            assert(init.take(p) =~= cs.take(p));
            assert(init.take(p + 1) =~= cs.take(p + 1));
            lemma_ellipsis_count_prefix(init, p + 1);
        }
        assert forall|i: int|
            0 <= i < cs.len() && #[trigger] cs[i] is Ellipsis && valid_components(cs)
                implies ellipsis_position(cs) == Some(i) by {
            if i < cs.len() - 1 {
                assert(init[i] is Ellipsis);
            } else if ellipsis_position(init) is Some {
                let p = ellipsis_position(init)->0;
                lemma_ellipsis_count_prefix(init, p + 1);
            }
        }
    }
}

/// Scans for ellipses: the position of the only one, or an error if there are several.
fn check_ellipsis_pos(components: &[PatternComponent]) -> (r: Result<
    Option<usize>,
    ShapePatternError,
>)
    ensures
        match r {
            Ok(p) => {
                &&& valid_components(components_view(components@))
                &&& match p {
                    Some(i) => ellipsis_position(components_view(components@)) == Some(i as int),
                    None => ellipsis_position(components_view(components@)) is None,
                }
            },
            Err(e) => {
                &&& !valid_components(components_view(components@))
                &&& e matches ShapePatternError::InvalidPattern { pattern, message }
                &&& pattern@ == render(components_view(components@))
                &&& message@ == "Only one ellipsis is allowed"@
            },
        },
{
    let ghost cv = components_view(components@);
    let n = components.len();
    let mut pos: Option<usize> = None;
    let mut k: usize = 0;
    while k < n
        invariant
            n == components@.len(),
            cv == components_view(components@),
            k <= n,
            ellipsis_count(cv.take(k as int)) <= 1,
            match pos {
                Some(i) => ellipsis_position(cv.take(k as int)) == Some(i as int),
                None => ellipsis_position(cv.take(k as int)) is None,
            },
        decreases n - k,
    {
        proof {
            assert(cv.take(k + 1).drop_last() =~= cv.take(k as int));
            lemma_ellipsis_position(cv.take(k as int));
        }
        if let PatternComponent::Ellipsis = &components[k] {
            if pos.is_some() {
                proof {
                    lemma_ellipsis_count_prefix(cv, k + 1);
                }
                return Err(
                    ShapePatternError::InvalidPattern {
                        pattern: render_components(components),
                        message: "Only one ellipsis is allowed".to_owned(),
                    },
                );
            }
            pos = Some(k);
        }
        k = k + 1;
    }
    proof {
        assert(cv.take(n as int) =~= cv);
    }
    Ok(pos)
}

impl ShapePattern {
    /// Builds a pattern from its components.
    ///
    /// Fails with `InvalidPattern` when there is more than one ellipsis.
    pub fn new(components: Vec<PatternComponent>) -> (r: Result<Self, ShapePatternError>)
        ensures
            match r {
                Ok(p) => valid_components(components_view(components@)) && p@ == components_view(
                    components@,
                ),
                Err(e) => {
                    &&& !valid_components(components_view(components@))
                    &&& e matches ShapePatternError::InvalidPattern { pattern, message }
                    &&& pattern@ == render(components_view(components@))
                    &&& message@ == "Only one ellipsis is allowed"@
                },
            },
    {
        let ellipsis_pos = check_ellipsis_pos(components.as_slice())?;
        Ok(ShapePattern { ellipsis_pos, components })
    }

    /// The components, in order.
    pub fn components(&self) -> (r: &[PatternComponent])
        ensures
            components_view(r@) == self@,
            valid_components(self@),
    {
        proof {
            use_type_invariant(self);
        }
        self.components.as_slice()
    }

    /// The position of the ellipsis, if the pattern has one.
    pub fn ellipsis_pos(&self) -> (r: Option<usize>)
        ensures
            valid_components(self@),
            match r {
                Some(i) => ellipsis_position(self@) == Some(i as int),
                None => ellipsis_position(self@) is None,
            },
    {
        proof {
            use_type_invariant(self);
        }
        self.ellipsis_pos
    }

    /// Whether the pattern has an ellipsis.
    pub fn has_ellipsis(&self) -> (r: bool)
        ensures
            r == (ellipsis_count(self@) == 1),
    {
        proof {
            use_type_invariant(self);
            lemma_ellipsis_position(self@);
        }
        self.ellipsis_pos().is_some()
    }

    /// The canonical surface syntax: components separated by single spaces,
    /// composite groups parenthesised.
    pub fn to_display_string(&self) -> (r: String)
        ensures
            r@ == render(self@),
    {
        render_components(self.components.as_slice())
    }
}

} // verus!
