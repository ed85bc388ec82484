//! Boolean predicates over the list of installed mods.

use vstd::prelude::*;
use vstd::std_specs::convert::FromSpecImpl;
use crate::text::{eq_ignoring_case, same_text_ignoring_case, to_chars};

verus! {

/// A predicate that is true iff the named mod is installed.
#[derive(Debug)]
pub struct Atomic {
    pub item: String,
}

/// True iff every child is true.
#[derive(Debug)]
pub struct ALL {
    pub expressions: Vec<Expression>,
}

/// True iff at least one child is true.
#[derive(Debug)]
pub struct ANY {
    pub expressions: Vec<Expression>,
}

/// True iff the child is false.
#[derive(Debug)]
pub struct NOT {
    pub expression: Box<Expression>,
}

/// True iff the child is true and the description of the mod matches the
/// pattern (or fails to match it, when negated).
#[derive(Debug)]
pub struct DESC {
    pub expression: Box<Expression>,
    pub description: String,
    pub is_negated: bool,
}

/// A predicate over the list of installed mods.
#[derive(Debug)]
pub enum Expression {
    Atomic(Atomic),
    ALL(ALL),
    ANY(ANY),
    NOT(NOT),
    DESC(DESC),
}

/// An expression as a mathematical value.
pub enum ExpressionView {
    Atomic(Seq<char>),
    All(Seq<ExpressionView>),
    Any(Seq<ExpressionView>),
    Not(Box<ExpressionView>),
    Desc(Box<ExpressionView>, Seq<char>, bool),
}

/// The mathematical value of an expression.
pub open spec fn expression_view(e: Expression) -> ExpressionView
    decreases e,
{
    match e {
        Expression::Atomic(x) => ExpressionView::Atomic(x.item@),
        Expression::ALL(x) => ExpressionView::All(
            Seq::new(
                x.expressions@.len(),
                |i: int|
                    if 0 <= i < x.expressions@.len() {
                        expression_view(x.expressions@[i])
                    } else {
                        arbitrary()
                    },
            ),
        ),
        Expression::ANY(x) => ExpressionView::Any(
            Seq::new(
                x.expressions@.len(),
                |i: int|
                    if 0 <= i < x.expressions@.len() {
                        expression_view(x.expressions@[i])
                    } else {
                        arbitrary()
                    },
            ),
        ),
        Expression::NOT(x) => ExpressionView::Not(Box::new(expression_view(*x.expression))),
        Expression::DESC(x) => ExpressionView::Desc(
            Box::new(expression_view(*x.expression)),
            x.description@,
            x.is_negated,
        ),
    }
}

/// The views of a list of expressions.
pub open spec fn views(v: Seq<Expression>) -> Seq<ExpressionView> {
    Seq::new(v.len(), |i: int| expression_view(v[i]))
}

impl View for Expression {
    type V = ExpressionView;

    open spec fn view(&self) -> ExpressionView {
        expression_view(*self)
    }
}

impl View for Atomic {
    type V = ExpressionView;

    open spec fn view(&self) -> ExpressionView {
        ExpressionView::Atomic(self.item@)
    }
}

impl View for ALL {
    type V = ExpressionView;

    open spec fn view(&self) -> ExpressionView {
        ExpressionView::All(views(self.expressions@))
    }
}

impl View for ANY {
    type V = ExpressionView;

    open spec fn view(&self) -> ExpressionView {
        ExpressionView::Any(views(self.expressions@))
    }
}

impl View for NOT {
    type V = ExpressionView;

    open spec fn view(&self) -> ExpressionView {
        ExpressionView::Not(Box::new(expression_view(*self.expression)))
    }
}

impl View for DESC {
    type V = ExpressionView;

    open spec fn view(&self) -> ExpressionView {
        ExpressionView::Desc(
            Box::new(expression_view(*self.expression)),
            self.description@,
            self.is_negated,
        )
    }
}

/// The mod `name` is installed: it occurs in `mods`, letter case aside.
pub open spec fn is_installed(name: Seq<char>, mods: Seq<Seq<char>>) -> bool {
    exists|i: int| 0 <= i < mods.len() && same_text_ignoring_case(#[trigger] mods[i], name)
}

/// The value of a `DESC` node from the value of its child and the outcome of
/// matching the pattern against the mod's description; `None` stands for a
/// mod without description metadata.
pub open spec fn desc_value(child: bool, matched: Option<bool>, negated: bool) -> bool {
    child && match matched {
        Some(m) => m != negated,
        None => false,
    }
}

/// The value of an expression over a list of installed mods. No description
/// metadata is at hand here, so a `DESC` node is false.
pub open spec fn eval_spec(e: ExpressionView, mods: Seq<Seq<char>>) -> bool
    decreases e,
{
    match e {
        ExpressionView::Atomic(name) => is_installed(name, mods),
        ExpressionView::All(xs) => forall|i: int|
            #![trigger xs[i]]
            0 <= i < xs.len() ==> eval_spec(xs[i], mods),
        ExpressionView::Any(xs) => exists|i: int|
            #![trigger xs[i]]
            0 <= i < xs.len() && eval_spec(xs[i], mods),
        ExpressionView::Not(x) => !eval_spec(*x, mods),
        ExpressionView::Desc(x, pattern, negated) => desc_value(
            eval_spec(*x, mods),
            None,
            negated,
        ),
    }
}

/// `ALL` is the conjunction of its children.
pub proof fn lemma_eval_all(xs: Seq<ExpressionView>, mods: Seq<Seq<char>>)
    ensures
        eval_spec(ExpressionView::All(xs), mods) == (forall|k: int|
            #![trigger xs[k]]
            0 <= k < xs.len() ==> eval_spec(xs[k], mods)),
{
    let e = ExpressionView::All(xs);
    assert(e->All_0 == xs);
    assert(eval_spec(e, mods) == (forall|k: int|
        #![trigger xs[k]]
        0 <= k < xs.len() ==> eval_spec(xs[k], mods)));
}

/// `ANY` is the disjunction of its children.
pub proof fn lemma_eval_any(xs: Seq<ExpressionView>, mods: Seq<Seq<char>>)
    ensures
        eval_spec(ExpressionView::Any(xs), mods) == (exists|k: int|
            #![trigger xs[k]]
            0 <= k < xs.len() && eval_spec(xs[k], mods)),
{
    let e = ExpressionView::Any(xs);
    assert(e->Any_0 == xs);
    assert(eval_spec(e, mods) == (exists|k: int|
        #![trigger xs[k]]
        0 <= k < xs.len() && eval_spec(xs[k], mods)));
}

/// Every `ALL` and `ANY` node has at least one child.
pub open spec fn well_formed(e: ExpressionView) -> bool
    decreases e,
{
    match e {
        ExpressionView::Atomic(name) => true,
        ExpressionView::All(xs) => xs.len() >= 1 && forall|i: int|
            #![trigger xs[i]]
            0 <= i < xs.len() ==> well_formed(xs[i]),
        ExpressionView::Any(xs) => xs.len() >= 1 && forall|i: int|
            #![trigger xs[i]]
            0 <= i < xs.len() ==> well_formed(xs[i]),
        ExpressionView::Not(x) => well_formed(*x),
        ExpressionView::Desc(x, pattern, negated) => well_formed(*x),
    }
}

/// The name of every `Atomic` node satisfies `recognized`.
pub open spec fn names_satisfy(e: ExpressionView, recognized: spec_fn(Seq<char>) -> bool) -> bool
    decreases e,
{
    match e {
        ExpressionView::Atomic(name) => recognized(name),
        ExpressionView::All(xs) => forall|i: int|
            #![trigger xs[i]]
            0 <= i < xs.len() ==> names_satisfy(xs[i], recognized),
        ExpressionView::Any(xs) => forall|i: int|
            #![trigger xs[i]]
            0 <= i < xs.len() ==> names_satisfy(xs[i], recognized),
        ExpressionView::Not(x) => names_satisfy(*x, recognized),
        ExpressionView::Desc(x, pattern, negated) => names_satisfy(*x, recognized),
    }
}

/// The names of an `ALL` or `ANY` node are those of its children.
pub proof fn lemma_names_satisfy_list(
    xs: Seq<ExpressionView>,
    recognized: spec_fn(Seq<char>) -> bool,
)
    ensures
        names_satisfy(ExpressionView::All(xs), recognized) == (forall|k: int|
            #![trigger xs[k]]
            0 <= k < xs.len() ==> names_satisfy(xs[k], recognized)),
        names_satisfy(ExpressionView::Any(xs), recognized) == (forall|k: int|
            #![trigger xs[k]]
            0 <= k < xs.len() ==> names_satisfy(xs[k], recognized)),
{
    let a = ExpressionView::All(xs);
    assert(a->All_0 == xs);
    assert(names_satisfy(a, recognized) == (forall|k: int|
        #![trigger xs[k]]
        0 <= k < xs.len() ==> names_satisfy(xs[k], recognized)));
    let b = ExpressionView::Any(xs);
    assert(b->Any_0 == xs);
    assert(names_satisfy(b, recognized) == (forall|k: int|
        #![trigger xs[k]]
        0 <= k < xs.len() ==> names_satisfy(xs[k], recognized)));
}

/// An `ALL` node is well formed iff it has a child and all its children are
/// well formed.
pub proof fn lemma_well_formed_all(xs: Seq<ExpressionView>)
    ensures
        well_formed(ExpressionView::All(xs)) == (xs.len() >= 1 && forall|k: int|
            #![trigger xs[k]]
            0 <= k < xs.len() ==> well_formed(xs[k])),
{
    let e = ExpressionView::All(xs);
    assert(e->All_0 == xs);
    assert(well_formed(e) == (xs.len() >= 1 && forall|k: int|
        #![trigger xs[k]]
        0 <= k < xs.len() ==> well_formed(xs[k])));
}

/// An `ANY` node is well formed iff it has a child and all its children are
/// well formed.
pub proof fn lemma_well_formed_any(xs: Seq<ExpressionView>)
    ensures
        well_formed(ExpressionView::Any(xs)) == (xs.len() >= 1 && forall|k: int|
            #![trigger xs[k]]
            0 <= k < xs.len() ==> well_formed(xs[k])),
{
    let e = ExpressionView::Any(xs);
    assert(e->Any_0 == xs);
    assert(well_formed(e) == (xs.len() >= 1 && forall|k: int|
        #![trigger xs[k]]
        0 <= k < xs.len() ==> well_formed(xs[k])));
}

/// An expression node and the enum variant that wraps it are the same value.
pub proof fn lemma_wrapped_views(e: Expression)
    ensures
        e matches Expression::Atomic(x) ==> e@ == x@,
        e matches Expression::ALL(x) ==> e@ == x@,
        e matches Expression::ANY(x) ==> e@ == x@,
        e matches Expression::NOT(x) ==> e@ == x@,
        e matches Expression::DESC(x) ==> e@ == x@,
{
    match e {
        Expression::ALL(x) => {
            assert(e@->All_0 =~= views(x.expressions@));
        },
        Expression::ANY(x) => {
            assert(e@->Any_0 =~= views(x.expressions@));
        },
        _ => {},
    }
}

// ---------------------------------------------------------------------------
// Construction
// ---------------------------------------------------------------------------

impl Atomic {
    /// Makes the value from its parts.
    pub fn new(item: String) -> (r: Self)
        ensures
            r@ == ExpressionView::Atomic(item@),
    {
        Atomic { item }
    }

    /// The name of the mod.
    pub fn get_item(&self) -> (r: &str)
        ensures
            r@ == self.item@,
    {
        self.item.as_str()
    }
}

impl From<&str> for Atomic {
    fn from(item: &str) -> (r: Self)
        ensures
            r@ == ExpressionView::Atomic(item@),
    {
        Atomic { item: item.to_owned() }
    }
}

impl FromSpecImpl<&str> for Atomic {
    open spec fn obeys_from_spec() -> bool {
        false
    }

    open spec fn from_spec(v: &str) -> Self {
        arbitrary()
    }
}

impl From<String> for Atomic {
    fn from(item: String) -> (r: Self) {
        Atomic { item }
    }
}

impl FromSpecImpl<String> for Atomic {
    open spec fn obeys_from_spec() -> bool {
        true
    }

    open spec fn from_spec(v: String) -> Self {
        Atomic { item: v }
    }
}

impl ALL {
    /// Makes the value from its parts.
    pub fn new(expressions: Vec<Expression>) -> (r: Self)
        ensures
            r@ == ExpressionView::All(views(expressions@)),
    {
        ALL { expressions }
    }
}

impl ANY {
    /// Makes the value from its parts.
    pub fn new(expressions: Vec<Expression>) -> (r: Self)
        ensures
            r@ == ExpressionView::Any(views(expressions@)),
    {
        ANY { expressions }
    }
}

impl NOT {
    /// Makes the value from its parts.
    pub fn new(expression: Expression) -> (r: Self)
        ensures
            r@ == ExpressionView::Not(Box::new(expression@)),
    {
        NOT { expression: Box::new(expression) }
    }
}

impl DESC {
    /// Makes the value from its parts.
    pub fn new(expression: Expression, description: String, is_negated: bool) -> (r: Self)
        ensures
            r@ == ExpressionView::Desc(Box::new(expression@), description@, is_negated),
    {
        DESC { expression: Box::new(expression), description, is_negated }
    }
}

impl From<Atomic> for Expression {
    fn from(val: Atomic) -> (r: Self) {
        Expression::Atomic(val)
    }
}

impl FromSpecImpl<Atomic> for Expression {
    open spec fn obeys_from_spec() -> bool {
        true
    }

    open spec fn from_spec(v: Atomic) -> Self {
        Expression::Atomic(v)
    }
}

impl From<ALL> for Expression {
    fn from(val: ALL) -> (r: Self) {
        Expression::ALL(val)
    }
}

impl FromSpecImpl<ALL> for Expression {
    open spec fn obeys_from_spec() -> bool {
        true
    }

    open spec fn from_spec(v: ALL) -> Self {
        Expression::ALL(v)
    }
}

impl From<ANY> for Expression {
    fn from(val: ANY) -> (r: Self) {
        Expression::ANY(val)
    }
}

impl FromSpecImpl<ANY> for Expression {
    open spec fn obeys_from_spec() -> bool {
        true
    }

    open spec fn from_spec(v: ANY) -> Self {
        Expression::ANY(v)
    }
}

impl From<NOT> for Expression {
    fn from(val: NOT) -> (r: Self) {
        Expression::NOT(val)
    }
}

impl FromSpecImpl<NOT> for Expression {
    open spec fn obeys_from_spec() -> bool {
        true
    }

    open spec fn from_spec(v: NOT) -> Self {
        Expression::NOT(v)
    }
}

impl From<DESC> for Expression {
    fn from(val: DESC) -> (r: Self) {
        Expression::DESC(val)
    }
}

impl FromSpecImpl<DESC> for Expression {
    open spec fn obeys_from_spec() -> bool {
        true
    }

    open spec fn from_spec(v: DESC) -> Self {
        Expression::DESC(v)
    }
}

// ---------------------------------------------------------------------------
// Copies
// ---------------------------------------------------------------------------

/// A copy of a list of expressions.
pub fn clone_expressions(v: &Vec<Expression>) -> (r: Vec<Expression>)
    ensures
        views(r@) == views(v@),
    decreases v,
{
    let mut r: Vec<Expression> = Vec::new();
    let mut i: usize = 0;
    while i < v.len()
        invariant
            i <= v.len(),
            r.len() == i,
            forall|k: int| 0 <= k < i ==> r@[k]@ == v@[k]@,
        decreases v.len() - i,
    {
        let e = v[i].clone();
        r.push(e);
        i += 1;
    }
    assert(views(r@) =~= views(v@));
    r
}

impl Clone for Atomic {
    fn clone(&self) -> (r: Self)
        ensures
            r@ == self@,
    {
        Atomic { item: self.item.clone() }
    }
}

impl Clone for ALL {
    fn clone(&self) -> (r: Self)
        ensures
            r@ == self@,
        decreases self,
    {
        ALL { expressions: clone_expressions(&self.expressions) }
    }
}

impl Clone for ANY {
    fn clone(&self) -> (r: Self)
        ensures
            r@ == self@,
        decreases self,
    {
        ANY { expressions: clone_expressions(&self.expressions) }
    }
}

impl Clone for NOT {
    fn clone(&self) -> (r: Self)
        ensures
            r@ == self@,
        decreases self,
    {
        let inner: &Expression = &self.expression;
        NOT { expression: Box::new(inner.clone()) }
    }
}

impl Clone for DESC {
    fn clone(&self) -> (r: Self)
        ensures
            r@ == self@,
        decreases self,
    {
        let inner: &Expression = &self.expression;
        DESC {
            expression: Box::new(inner.clone()),
            description: self.description.clone(),
            is_negated: self.is_negated,
        }
    }
}

impl Clone for Expression {
    fn clone(&self) -> (r: Self)
        ensures
            r@ == self@,
        decreases self,
    {
        proof {
            lemma_wrapped_views(*self);
        }
        let r = match self {
            Expression::Atomic(x) => Expression::Atomic(x.clone()),
            Expression::ALL(x) => Expression::ALL(x.clone()),
            Expression::ANY(x) => Expression::ANY(x.clone()),
            Expression::NOT(x) => Expression::NOT(x.clone()),
            Expression::DESC(x) => Expression::DESC(x.clone()),
        };
        proof {
            lemma_wrapped_views(r);
        }
        r
    }
}

// ---------------------------------------------------------------------------
// Evaluation
// ---------------------------------------------------------------------------

impl Atomic {
    /// Whether the mod is installed, letter case aside.
    pub fn eval(&self, items: &[String]) -> (r: bool)
        ensures
            r == eval_spec(self@, items.deep_view()),
    {
        let name = to_chars(self.item.as_str());
        let mut i: usize = 0;
        while i < items.len()
            invariant
                i <= items.len(),
                name@ == self.item@,
                forall|k: int|
                    0 <= k < i ==> !same_text_ignoring_case(
                        #[trigger] items.deep_view()[k],
                        self.item@,
                    ),
            decreases items.len() - i,
        {
            let item = to_chars(items[i].as_str());
            if eq_ignoring_case(&item, &name) {
                assert(same_text_ignoring_case(items.deep_view()[i as int], self.item@));
                return true;
            }
            i += 1;
        }
        false
    }
}

impl ALL {
    /// Whether every child is true.
    pub fn eval(&self, items: &[String]) -> (r: bool)
        ensures
            r == eval_spec(self@, items.deep_view()),
        decreases self,
    {
        let mut i: usize = 0;
        while i < self.expressions.len()
            invariant
                i <= self.expressions.len(),
                forall|k: int|
                    0 <= k < i ==> eval_spec(#[trigger] self.expressions@[k]@, items.deep_view()),
            decreases self.expressions.len() - i,
        {
            if !self.expressions[i].eval(items) {
                proof {
                    let xs = views(self.expressions@);
                    assert(self@ == ExpressionView::All(xs));
                    assert(xs[i as int] == self.expressions@[i as int]@);
                    assert(!eval_spec(xs[i as int], items.deep_view()));
                    lemma_eval_all(xs, items.deep_view());
                }
                return false;
            }
            i += 1;
        }
        proof {
            let xs = views(self.expressions@);
            assert forall|k: int| 0 <= k < xs.len() implies eval_spec(xs[k], items.deep_view()) by {
                assert(xs[k] == self.expressions@[k]@);
            }
        }
        true
    }
}

impl ANY {
    /// Whether some child is true.
    pub fn eval(&self, items: &[String]) -> (r: bool)
        ensures
            r == eval_spec(self@, items.deep_view()),
        decreases self,
    {
        let mut i: usize = 0;
        while i < self.expressions.len()
            invariant
                i <= self.expressions.len(),
                forall|k: int|
                    0 <= k < i ==> !eval_spec(#[trigger] self.expressions@[k]@, items.deep_view()),
            decreases self.expressions.len() - i,
        {
            if self.expressions[i].eval(items) {
                proof {
                    let xs = views(self.expressions@);
                    assert(xs[i as int] == self.expressions@[i as int]@);
                    assert(eval_spec(xs[i as int], items.deep_view()));
                    lemma_eval_any(xs, items.deep_view());
                }
                return true;
            }
            i += 1;
        }
        assert forall|k: int| 0 <= k < views(self.expressions@).len() implies !eval_spec(
            views(self.expressions@)[k],
            items.deep_view(),
        ) by {
            assert(views(self.expressions@)[k] == self.expressions@[k]@);
        }
        false
    }
}

impl NOT {
    /// Whether the child is false.
    pub fn eval(&self, items: &[String]) -> (r: bool)
        ensures
            r == eval_spec(self@, items.deep_view()),
        decreases self,
    {
        let inner: &Expression = &self.expression;
        !inner.eval(items)
    }
}

impl DESC {
    /// The value of the node given the outcome of matching its pattern against
    /// the description of the mod; `None` where the mod has no description.
    pub fn eval_with(&self, items: &[String], matched: Option<bool>) -> (r: bool)
        ensures
            r == desc_value(eval_spec(self.expression@, items.deep_view()), matched, self.is_negated),
    {
        let inner: &Expression = &self.expression;
        if !inner.eval(items) {
            return false;
        }
        match matched {
            Some(m) => m != self.is_negated,
            None => false,
        }
    }

    /// The value of the node without description metadata: false.
    pub fn eval(&self, items: &[String]) -> (r: bool)
        ensures
            r == eval_spec(self@, items.deep_view()),
            !r,
    {
        false
    }
}

impl Expression {
    /// The value of the expression over the list of installed mods.
    pub fn eval(&self, items: &[String]) -> (r: bool)
        ensures
            r == eval_spec(self@, items.deep_view()),
        decreases self,
    {
        proof {
            lemma_wrapped_views(*self);
        }
        match self {
            Expression::Atomic(x) => x.eval(items),
            Expression::ALL(x) => x.eval(items),
            Expression::ANY(x) => x.eval(items),
            Expression::NOT(x) => x.eval(items),
            Expression::DESC(x) => x.eval(items),
        }
    }
}

// ---------------------------------------------------------------------------
// Laws
// ---------------------------------------------------------------------------

/// Whether a mod counts as installed does not depend on the case of ASCII
/// letters, neither in the name asked for nor in the names of the list.
pub proof fn lemma_atomic_ignores_case(
    name1: Seq<char>,
    name2: Seq<char>,
    mods1: Seq<Seq<char>>,
    mods2: Seq<Seq<char>>,
)
    requires
        same_text_ignoring_case(name1, name2),
        mods1.len() == mods2.len(),
        forall|i: int| 0 <= i < mods1.len() ==> same_text_ignoring_case(mods1[i], mods2[i]),
    ensures
        eval_spec(ExpressionView::Atomic(name1), mods1) == eval_spec(
            ExpressionView::Atomic(name2),
            mods2,
        ),
{
    if is_installed(name1, mods1) {
        let i = choose|i: int|
            0 <= i < mods1.len() && same_text_ignoring_case(#[trigger] mods1[i], name1);
        assert(same_text_ignoring_case(mods2[i], name2));
    }
    if is_installed(name2, mods2) {
        let i = choose|i: int|
            0 <= i < mods2.len() && same_text_ignoring_case(#[trigger] mods2[i], name2);
        assert(same_text_ignoring_case(mods1[i], name1));
    }
}

} // verus!
