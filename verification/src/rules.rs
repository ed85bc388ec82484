//! The rules of a rules document: ordering rules, which constrain the load
//! order, and warning rules, which are evaluated against the list of
//! installed mods.

use vstd::prelude::*;
use vstd::std_specs::convert::FromSpecImpl;
use crate::document::{
    body_comment, body_expressions, parse_list_rule_spec, parse_order_rule_spec, parse_order_spec,
    parse_pair_rule_spec, parse_rule_spec, parse_warning_rule_spec,
};
use crate::expressions::{clone_expressions, eval_spec, Expression, ExpressionView, views};
use crate::parser::{
    parse_expressions_chars, parse_names_chars, ParseError, Parser, read_comment_chars,
    strings_to_chars,
};
use crate::text::{from_chars, subvec, to_chars};

verus! {

// ---------------------------------------------------------------------------
// Rules as mathematical values
// ---------------------------------------------------------------------------

/// A `Note` or a `Conflict`: a comment and a list of expressions.
pub struct ListRuleView {
    pub comment: Seq<char>,
    pub expressions: Seq<ExpressionView>,
}

/// A `Requires` or a `Patch`: a comment and two expressions, which a rule
/// that was not filled in yet lacks.
pub struct PairRuleView {
    pub comment: Seq<char>,
    pub expression_a: Option<ExpressionView>,
    pub expression_b: Option<ExpressionView>,
}

/// An ordering rule as a mathematical value: its kind and its names.
pub enum EOrderRuleView {
    Order(Seq<Seq<char>>),
    NearStart(Seq<Seq<char>>),
    NearEnd(Seq<Seq<char>>),
}

/// A warning rule as a mathematical value.
pub enum EWarningRuleView {
    Note(ListRuleView),
    Conflict(ListRuleView),
    Requires(PairRuleView),
    Patch(PairRuleView),
}

/// A rule as a mathematical value.
pub enum ERuleView {
    EOrderRule(EOrderRuleView),
    EWarningRule(EWarningRuleView),
}

/// How many of the expressions are true.
pub open spec fn true_count(xs: Seq<ExpressionView>, mods: Seq<Seq<char>>) -> nat
    decreases xs.len(),
{
    if xs.len() == 0 {
        0
    } else {
        true_count(xs.drop_last(), mods) + if eval_spec(xs.last(), mods) {
            1nat
        } else {
            0nat
        }
    }
}

/// A note holds iff one of its expressions is true.
pub open spec fn note_holds(rule: ListRuleView, mods: Seq<Seq<char>>) -> bool {
    exists|i: int|
        #![trigger rule.expressions[i]]
        0 <= i < rule.expressions.len() && eval_spec(rule.expressions[i], mods)
}

/// A conflict holds iff at least two of its expressions are true.
pub open spec fn conflict_holds(rule: ListRuleView, mods: Seq<Seq<char>>) -> bool {
    true_count(rule.expressions, mods) >= 2
}

/// A requirement is broken iff the first expression is true and the second
/// is not.
pub open spec fn requires_holds(rule: PairRuleView, mods: Seq<Seq<char>>) -> bool {
    match (rule.expression_a, rule.expression_b) {
        (Some(a), Some(b)) => eval_spec(a, mods) && !eval_spec(b, mods),
        _ => false,
    }
}

/// A patch rule holds iff exactly one of its two expressions is true.
pub open spec fn patch_holds(rule: PairRuleView, mods: Seq<Seq<char>>) -> bool {
    match (rule.expression_a, rule.expression_b) {
        (Some(a), Some(b)) => eval_spec(a, mods) != eval_spec(b, mods),
        _ => false,
    }
}

/// Whether a warning rule holds, and so its comment is due.
pub open spec fn warning_holds(rule: EWarningRuleView, mods: Seq<Seq<char>>) -> bool {
    match rule {
        EWarningRuleView::Note(x) => note_holds(x, mods),
        EWarningRuleView::Conflict(x) => conflict_holds(x, mods),
        EWarningRuleView::Requires(x) => requires_holds(x, mods),
        EWarningRuleView::Patch(x) => patch_holds(x, mods),
    }
}

/// The comment of a warning rule.
pub open spec fn warning_comment(rule: EWarningRuleView) -> Seq<char> {
    match rule {
        EWarningRuleView::Note(x) => x.comment,
        EWarningRuleView::Conflict(x) => x.comment,
        EWarningRuleView::Requires(x) => x.comment,
        EWarningRuleView::Patch(x) => x.comment,
    }
}

/// The rule with another comment.
pub open spec fn with_comment(rule: EWarningRuleView, comment: Seq<char>) -> EWarningRuleView {
    match rule {
        EWarningRuleView::Note(x) => EWarningRuleView::Note(
            ListRuleView { comment, expressions: x.expressions },
        ),
        EWarningRuleView::Conflict(x) => EWarningRuleView::Conflict(
            ListRuleView { comment, expressions: x.expressions },
        ),
        EWarningRuleView::Requires(x) => EWarningRuleView::Requires(
            PairRuleView { comment, expression_a: x.expression_a, expression_b: x.expression_b },
        ),
        EWarningRuleView::Patch(x) => EWarningRuleView::Patch(
            PairRuleView { comment, expression_a: x.expression_a, expression_b: x.expression_b },
        ),
    }
}

/// A patch rule holds exactly where one of its two sides is required and
/// missing: `Patch(a, b)` is `Requires(a, b)` or `Requires(b, a)`.
pub proof fn lemma_patch_is_requires_either_way(
    comment: Seq<char>,
    a: ExpressionView,
    b: ExpressionView,
    mods: Seq<Seq<char>>,
)
    ensures
        patch_holds(PairRuleView { comment, expression_a: Some(a), expression_b: Some(b) }, mods)
            == (requires_holds(
            PairRuleView { comment, expression_a: Some(a), expression_b: Some(b) },
            mods,
        ) || requires_holds(
            PairRuleView { comment, expression_a: Some(b), expression_b: Some(a) },
            mods,
        )),
{
}

// ---------------------------------------------------------------------------
// The traits of rules
// ---------------------------------------------------------------------------

/// A rule that is evaluated against the list of installed mods and carries a
/// comment that says why it holds.
pub trait TWarningRule {
    /// The rule as a mathematical value.
    spec fn warning_view(&self) -> EWarningRuleView;

    fn get_comment(&self) -> (r: &str)
        ensures
            r@ == warning_comment(self.warning_view()),
    ;

    fn set_comment(&mut self, comment: String)
        ensures
            final(self).warning_view() == with_comment(old(self).warning_view(), comment@),
    ;

    fn eval(&self, items: &[String]) -> (r: bool)
        ensures
            r == warning_holds(self.warning_view(), items.deep_view()),
    ;
}

// ---------------------------------------------------------------------------
// Ordering rules
// ---------------------------------------------------------------------------

/// A copy of a list of names.
pub fn clone_names(v: &Vec<String>) -> (r: Vec<String>)
    ensures
        r.deep_view() == v.deep_view(),
{
    let mut r: Vec<String> = Vec::new();
    let mut i: usize = 0;
    while i < v.len()
        invariant
            i <= v.len(),
            r.len() == i,
            forall|k: int| 0 <= k < i ==> r@[k]@ == v@[k]@,
        decreases v.len() - i,
    {
        r.push(v[i].clone());
        i += 1;
    }
    assert(r.deep_view() =~= v.deep_view());
    r
}

/// A copy of a slice of expressions.
pub fn clone_expression_slice(v: &[Expression]) -> (r: Vec<Expression>)
    ensures
        views(r@) == views(v@),
{
    let mut r: Vec<Expression> = Vec::new();
    let mut i: usize = 0;
    while i < v.len()
        invariant
            i <= v.len(),
            r.len() == i,
            forall|k: int| 0 <= k < i ==> r@[k]@ == v@[k]@,
        decreases v.len() - i,
    {
        r.push(v[i].clone());
        i += 1;
    }
    assert(views(r@) =~= views(v@));
    r
}

/// The view of an expression that may be missing.
pub open spec fn option_view(e: Option<Expression>) -> Option<ExpressionView> {
    match e {
        Some(x) => Some(x@),
        None => None,
    }
}

/// A copy of an expression that may be missing.
pub fn clone_option(e: &Option<Expression>) -> (r: Option<Expression>)
    ensures
        option_view(r) == option_view(*e),
{
    match e {
        Some(x) => Some(x.clone()),
        None => None,
    }
}

/// The `Order` rule names mods in the order in which they must load: each
/// before the next.
#[derive(Debug)]
pub struct Order {
    pub names: Vec<String>,
}

impl View for Order {
    type V = Seq<Seq<char>>;

    open spec fn view(&self) -> Seq<Seq<char>> {
        self.names.deep_view()
    }
}

impl Default for Order {
    fn default() -> (r: Self)
        ensures
            r@ == Seq::<Seq<char>>::empty(),
    {
        let r = Order { names: Vec::new() };
        assert(r@ =~= Seq::<Seq<char>>::empty());
        r
    }
}

impl Clone for Order {
    fn clone(&self) -> (r: Self)
        ensures
            r@ == self@,
    {
        Order { names: clone_names(&self.names) }
    }
}

impl Order {
    /// Makes the value from its parts.
    pub fn new(names: Vec<String>) -> (r: Self)
        ensures
            r@ == names.deep_view(),
    {
        Self { names }
    }
}

impl Order {
    /// The rule that `name_a` loads before `name_b`.
    pub fn from(name_a: &str, name_b: &str) -> (r: Self)
        ensures
            r@ == seq![name_a@, name_b@],
    {
        let mut names: Vec<String> = Vec::new();
        names.push(name_a.to_owned());
        names.push(name_b.to_owned());
        let r = Self { names };
        assert(r@ =~= seq![name_a@, name_b@]);
        r
    }
}

/// The `NearStart` rule names mods that should load as near to the start of
/// the load order as possible. It is a hint that the parser reads and the
/// ordering engine does not act on.
#[derive(Debug)]
pub struct NearStart {
    pub names: Vec<String>,
}

impl View for NearStart {
    type V = Seq<Seq<char>>;

    open spec fn view(&self) -> Seq<Seq<char>> {
        self.names.deep_view()
    }
}

impl Default for NearStart {
    fn default() -> (r: Self)
        ensures
            r@ == Seq::<Seq<char>>::empty(),
    {
        let r = NearStart { names: Vec::new() };
        assert(r@ =~= Seq::<Seq<char>>::empty());
        r
    }
}

impl Clone for NearStart {
    fn clone(&self) -> (r: Self)
        ensures
            r@ == self@,
    {
        NearStart { names: clone_names(&self.names) }
    }
}

impl NearStart {
    /// Makes the value from its parts.
    pub fn new(names: Vec<String>) -> (r: Self)
        ensures
            r@ == names.deep_view(),
    {
        Self { names }
    }
}

/// The `NearEnd` rule names mods that should load as near to the end of the
/// load order as possible. It is a hint that the parser reads and the
/// ordering engine does not act on.
#[derive(Debug)]
pub struct NearEnd {
    pub names: Vec<String>,
}

impl View for NearEnd {
    type V = Seq<Seq<char>>;

    open spec fn view(&self) -> Seq<Seq<char>> {
        self.names.deep_view()
    }
}

impl Default for NearEnd {
    fn default() -> (r: Self)
        ensures
            r@ == Seq::<Seq<char>>::empty(),
    {
        let r = NearEnd { names: Vec::new() };
        assert(r@ =~= Seq::<Seq<char>>::empty());
        r
    }
}

impl Clone for NearEnd {
    fn clone(&self) -> (r: Self)
        ensures
            r@ == self@,
    {
        NearEnd { names: clone_names(&self.names) }
    }
}

impl NearEnd {
    /// Makes the value from its parts.
    pub fn new(names: Vec<String>) -> (r: Self)
        ensures
            r@ == names.deep_view(),
    {
        Self { names }
    }
}

// ---------------------------------------------------------------------------
// Warning rules
// ---------------------------------------------------------------------------

/// The `Note` rule shows its comment when one of its expressions is true.
#[derive(Debug)]
pub struct Note {
    pub comment: String,
    pub expressions: Vec<Expression>,
}

impl View for Note {
    type V = ListRuleView;

    open spec fn view(&self) -> ListRuleView {
        ListRuleView { comment: self.comment@, expressions: views(self.expressions@) }
    }
}

impl Default for Note {
    fn default() -> (r: Self)
        ensures
            r@ == (ListRuleView { comment: Seq::empty(), expressions: Seq::empty() }),
    {
        let r = Note { comment: String::new(), expressions: Vec::new() };
        assert(r@.expressions =~= Seq::<ExpressionView>::empty());
        r
    }
}

impl Clone for Note {
    fn clone(&self) -> (r: Self)
        ensures
            r@ == self@,
    {
        Note { comment: self.comment.clone(), expressions: clone_expressions(&self.expressions) }
    }
}

impl Note {
    /// Makes the value from its parts.
    pub fn new(comment: String, expressions: &[Expression]) -> (r: Self)
        ensures
            r@ == (ListRuleView { comment: comment@, expressions: views(expressions@) }),
    {
        Self { comment, expressions: clone_expression_slice(expressions) }
    }
}

/// The `Conflict` rule shows its comment when at least two of its
/// expressions are true.
#[derive(Debug)]
pub struct Conflict {
    pub comment: String,
    pub expressions: Vec<Expression>,
}

impl View for Conflict {
    type V = ListRuleView;

    open spec fn view(&self) -> ListRuleView {
        ListRuleView { comment: self.comment@, expressions: views(self.expressions@) }
    }
}

impl Default for Conflict {
    fn default() -> (r: Self)
        ensures
            r@ == (ListRuleView { comment: Seq::empty(), expressions: Seq::empty() }),
    {
        let r = Conflict { comment: String::new(), expressions: Vec::new() };
        assert(r@.expressions =~= Seq::<ExpressionView>::empty());
        r
    }
}

impl Clone for Conflict {
    fn clone(&self) -> (r: Self)
        ensures
            r@ == self@,
    {
        Conflict { comment: self.comment.clone(), expressions: clone_expressions(&self.expressions) }
    }
}

impl Conflict {
    /// Makes the value from its parts.
    pub fn new(comment: String, expressions: &[Expression]) -> (r: Self)
        ensures
            r@ == (ListRuleView { comment: comment@, expressions: views(expressions@) }),
    {
        Self { comment, expressions: clone_expression_slice(expressions) }
    }
}

/// The `Requires` rule shows its comment when the first expression is true
/// and the second is not.
#[derive(Debug)]
pub struct Requires {
    pub comment: String,
    pub expression_a: Option<Expression>,
    pub expression_b: Option<Expression>,
}

impl View for Requires {
    type V = PairRuleView;

    open spec fn view(&self) -> PairRuleView {
        PairRuleView {
            comment: self.comment@,
            expression_a: option_view(self.expression_a),
            expression_b: option_view(self.expression_b),
        }
    }
}

impl Default for Requires {
    fn default() -> (r: Self)
        ensures
            r@ == (PairRuleView { comment: Seq::empty(), expression_a: None, expression_b: None }),
    {
        Requires { comment: String::new(), expression_a: None, expression_b: None }
    }
}

impl Clone for Requires {
    fn clone(&self) -> (r: Self)
        ensures
            r@ == self@,
    {
        Requires {
            comment: self.comment.clone(),
            expression_a: clone_option(&self.expression_a),
            expression_b: clone_option(&self.expression_b),
        }
    }
}

impl Requires {
    /// Makes the value from its parts.
    pub fn new(comment: String, expression_a: Expression, expression_b: Expression) -> (r: Self)
        ensures
            r@ == (PairRuleView {
                comment: comment@,
                expression_a: Some(expression_a@),
                expression_b: Some(expression_b@),
            }),
    {
        Self { comment, expression_a: Some(expression_a), expression_b: Some(expression_b) }
    }
}

/// The `Patch` rule states a mutual dependency: it shows its comment when
/// exactly one of its two expressions is true.
#[derive(Debug)]
pub struct Patch {
    pub comment: String,
    pub expression_a: Option<Expression>,
    pub expression_b: Option<Expression>,
}

impl View for Patch {
    type V = PairRuleView;

    open spec fn view(&self) -> PairRuleView {
        PairRuleView {
            comment: self.comment@,
            expression_a: option_view(self.expression_a),
            expression_b: option_view(self.expression_b),
        }
    }
}

impl Default for Patch {
    fn default() -> (r: Self)
        ensures
            r@ == (PairRuleView { comment: Seq::empty(), expression_a: None, expression_b: None }),
    {
        Patch { comment: String::new(), expression_a: None, expression_b: None }
    }
}

impl Clone for Patch {
    fn clone(&self) -> (r: Self)
        ensures
            r@ == self@,
    {
        Patch {
            comment: self.comment.clone(),
            expression_a: clone_option(&self.expression_a),
            expression_b: clone_option(&self.expression_b),
        }
    }
}

impl Patch {
    /// Makes the value from its parts.
    pub fn new(comment: String, expression_a: Expression, expression_b: Expression) -> (r: Self)
        ensures
            r@ == (PairRuleView {
                comment: comment@,
                expression_a: Some(expression_a@),
                expression_b: Some(expression_b@),
            }),
    {
        Self { comment, expression_a: Some(expression_a), expression_b: Some(expression_b) }
    }
}

// ---------------------------------------------------------------------------
// Evaluation
// ---------------------------------------------------------------------------

impl TWarningRule for Note {
    open spec fn warning_view(&self) -> EWarningRuleView {
        EWarningRuleView::Note(self@)
    }

    fn get_comment(&self) -> (r: &str) {
        self.comment.as_str()
    }

    fn set_comment(&mut self, comment: String) {
        self.comment = comment;
    }

    /// Whether one of the expressions is true.
    fn eval(&self, items: &[String]) -> (r: bool) {
        let mut i: usize = 0;
        while i < self.expressions.len()
            invariant
                i <= self.expressions.len(),
                forall|k: int|
                    0 <= k < i ==> !eval_spec(#[trigger] views(self.expressions@)[k], items.deep_view()),
            decreases self.expressions.len() - i,
        {
            if self.expressions[i].eval(items) {
                proof {
                    let rule = self@;
                    assert(rule.expressions[i as int] == self.expressions@[i as int]@);
                    assert(eval_spec(rule.expressions[i as int], items.deep_view()));
                    assert(note_holds(rule, items.deep_view()));
                }
                return true;
            }
            i += 1;
        }
        false
    }
}

impl TWarningRule for Conflict {
    open spec fn warning_view(&self) -> EWarningRuleView {
        EWarningRuleView::Conflict(self@)
    }

    fn get_comment(&self) -> (r: &str) {
        self.comment.as_str()
    }

    fn set_comment(&mut self, comment: String) {
        self.comment = comment;
    }

    /// Whether at least two of the expressions are true.
    fn eval(&self, items: &[String]) -> (r: bool) {
        let ghost xs = views(self.expressions@);
        let mut count: usize = 0;
        let mut i: usize = 0;
        while i < self.expressions.len()
            invariant
                i <= self.expressions.len(),
                xs == views(self.expressions@),
                count <= i,
                count == true_count(xs.take(i as int), items.deep_view()),
            decreases self.expressions.len() - i,
        {
            proof {
                crate::text::lemma_take_step(xs, i as int);
            }
            if self.expressions[i].eval(items) {
                count += 1;
            }
            i += 1;
        }
        assert(xs.take(xs.len() as int) =~= xs);
        count > 1
    }
}

impl TWarningRule for Requires {
    open spec fn warning_view(&self) -> EWarningRuleView {
        EWarningRuleView::Requires(self@)
    }

    fn get_comment(&self) -> (r: &str) {
        self.comment.as_str()
    }

    fn set_comment(&mut self, comment: String) {
        self.comment = comment;
    }

    /// Whether the first expression is true and the second is not.
    fn eval(&self, items: &[String]) -> (r: bool) {
        match (&self.expression_a, &self.expression_b) {
            (Some(a), Some(b)) => a.eval(items) && !b.eval(items),
            _ => false,
        }
    }
}

impl TWarningRule for Patch {
    open spec fn warning_view(&self) -> EWarningRuleView {
        EWarningRuleView::Patch(self@)
    }

    fn get_comment(&self) -> (r: &str) {
        self.comment.as_str()
    }

    fn set_comment(&mut self, comment: String) {
        self.comment = comment;
    }

    /// Whether exactly one of the two expressions is true.
    fn eval(&self, items: &[String]) -> (r: bool) {
        match (&self.expression_a, &self.expression_b) {
            (Some(a), Some(b)) => {
                let x = a.eval(items);
                let y = b.eval(items);
                (x && !y) || (y && !x)
            },
            _ => false,
        }
    }
}

// ---------------------------------------------------------------------------
// The kinds of rules
// ---------------------------------------------------------------------------

/// A rule of a rules document.
#[derive(Debug)]
pub enum ERule {
    EOrderRule(EOrderRule),
    EWarningRule(EWarningRule),
}

/// A rule that bears on the load order.
#[derive(Debug)]
pub enum EOrderRule {
    Order(Order),
    NearStart(NearStart),
    NearEnd(NearEnd),
}

/// A rule that is evaluated against the list of installed mods.
#[derive(Debug)]
pub enum EWarningRule {
    Note(Note),
    Conflict(Conflict),
    Requires(Requires),
    Patch(Patch),
}

impl View for EOrderRule {
    type V = EOrderRuleView;

    open spec fn view(&self) -> EOrderRuleView {
        match self {
            EOrderRule::Order(x) => EOrderRuleView::Order(x@),
            EOrderRule::NearStart(x) => EOrderRuleView::NearStart(x@),
            EOrderRule::NearEnd(x) => EOrderRuleView::NearEnd(x@),
        }
    }
}

impl View for EWarningRule {
    type V = EWarningRuleView;

    open spec fn view(&self) -> EWarningRuleView {
        match self {
            EWarningRule::Note(x) => EWarningRuleView::Note(x@),
            EWarningRule::Conflict(x) => EWarningRuleView::Conflict(x@),
            EWarningRule::Requires(x) => EWarningRuleView::Requires(x@),
            EWarningRule::Patch(x) => EWarningRuleView::Patch(x@),
        }
    }
}

impl View for ERule {
    type V = ERuleView;

    open spec fn view(&self) -> ERuleView {
        match self {
            ERule::EOrderRule(x) => ERuleView::EOrderRule(x@),
            ERule::EWarningRule(x) => ERuleView::EWarningRule(x@),
        }
    }
}

impl Clone for EOrderRule {
    fn clone(&self) -> (r: Self)
        ensures
            r@ == self@,
    {
        match self {
            EOrderRule::Order(x) => EOrderRule::Order(x.clone()),
            EOrderRule::NearStart(x) => EOrderRule::NearStart(x.clone()),
            EOrderRule::NearEnd(x) => EOrderRule::NearEnd(x.clone()),
        }
    }
}

impl Clone for EWarningRule {
    fn clone(&self) -> (r: Self)
        ensures
            r@ == self@,
    {
        match self {
            EWarningRule::Note(x) => EWarningRule::Note(x.clone()),
            EWarningRule::Conflict(x) => EWarningRule::Conflict(x.clone()),
            EWarningRule::Requires(x) => EWarningRule::Requires(x.clone()),
            EWarningRule::Patch(x) => EWarningRule::Patch(x.clone()),
        }
    }
}

impl Clone for ERule {
    fn clone(&self) -> (r: Self)
        ensures
            r@ == self@,
    {
        match self {
            ERule::EOrderRule(x) => ERule::EOrderRule(x.clone()),
            ERule::EWarningRule(x) => ERule::EWarningRule(x.clone()),
        }
    }
}

impl TWarningRule for EWarningRule {
    open spec fn warning_view(&self) -> EWarningRuleView {
        self@
    }

    fn get_comment(&self) -> (r: &str) {
        match self {
            EWarningRule::Note(x) => x.get_comment(),
            EWarningRule::Conflict(x) => x.get_comment(),
            EWarningRule::Requires(x) => x.get_comment(),
            EWarningRule::Patch(x) => x.get_comment(),
        }
    }

    fn set_comment(&mut self, comment: String) {
        match self {
            EWarningRule::Note(x) => x.set_comment(comment),
            EWarningRule::Conflict(x) => x.set_comment(comment),
            EWarningRule::Requires(x) => x.set_comment(comment),
            EWarningRule::Patch(x) => x.set_comment(comment),
        }
    }

    fn eval(&self, items: &[String]) -> (r: bool) {
        match self {
            EWarningRule::Note(o) => o.eval(items),
            EWarningRule::Conflict(o) => o.eval(items),
            EWarningRule::Requires(o) => o.eval(items),
            EWarningRule::Patch(o) => o.eval(items),
        }
    }
}

// ---------------------------------------------------------------------------
// Conversions
// ---------------------------------------------------------------------------

impl From<EOrderRule> for ERule {
    fn from(val: EOrderRule) -> (r: Self) {
        ERule::EOrderRule(val)
    }
}

impl FromSpecImpl<EOrderRule> for ERule {
    open spec fn obeys_from_spec() -> bool {
        true
    }

    open spec fn from_spec(val: EOrderRule) -> Self {
        ERule::EOrderRule(val)
    }
}

impl From<EWarningRule> for ERule {
    fn from(val: EWarningRule) -> (r: Self) {
        ERule::EWarningRule(val)
    }
}

impl FromSpecImpl<EWarningRule> for ERule {
    open spec fn obeys_from_spec() -> bool {
        true
    }

    open spec fn from_spec(val: EWarningRule) -> Self {
        ERule::EWarningRule(val)
    }
}

impl From<Order> for ERule {
    fn from(val: Order) -> (r: Self) {
        ERule::EOrderRule(EOrderRule::Order(val))
    }
}

impl FromSpecImpl<Order> for ERule {
    open spec fn obeys_from_spec() -> bool {
        true
    }

    open spec fn from_spec(val: Order) -> Self {
        ERule::EOrderRule(EOrderRule::Order(val))
    }
}

impl From<NearStart> for ERule {
    fn from(val: NearStart) -> (r: Self) {
        ERule::EOrderRule(EOrderRule::NearStart(val))
    }
}

impl FromSpecImpl<NearStart> for ERule {
    open spec fn obeys_from_spec() -> bool {
        true
    }

    open spec fn from_spec(val: NearStart) -> Self {
        ERule::EOrderRule(EOrderRule::NearStart(val))
    }
}

impl From<NearEnd> for ERule {
    fn from(val: NearEnd) -> (r: Self) {
        ERule::EOrderRule(EOrderRule::NearEnd(val))
    }
}

impl FromSpecImpl<NearEnd> for ERule {
    open spec fn obeys_from_spec() -> bool {
        true
    }

    open spec fn from_spec(val: NearEnd) -> Self {
        ERule::EOrderRule(EOrderRule::NearEnd(val))
    }
}

impl From<Order> for EOrderRule {
    fn from(val: Order) -> (r: Self) {
        EOrderRule::Order(val)
    }
}

impl FromSpecImpl<Order> for EOrderRule {
    open spec fn obeys_from_spec() -> bool {
        true
    }

    open spec fn from_spec(val: Order) -> Self {
        EOrderRule::Order(val)
    }
}

impl From<NearStart> for EOrderRule {
    fn from(val: NearStart) -> (r: Self) {
        EOrderRule::NearStart(val)
    }
}

impl FromSpecImpl<NearStart> for EOrderRule {
    open spec fn obeys_from_spec() -> bool {
        true
    }

    open spec fn from_spec(val: NearStart) -> Self {
        EOrderRule::NearStart(val)
    }
}

impl From<NearEnd> for EOrderRule {
    fn from(val: NearEnd) -> (r: Self) {
        EOrderRule::NearEnd(val)
    }
}

impl FromSpecImpl<NearEnd> for EOrderRule {
    open spec fn obeys_from_spec() -> bool {
        true
    }

    open spec fn from_spec(val: NearEnd) -> Self {
        EOrderRule::NearEnd(val)
    }
}

impl From<Note> for ERule {
    fn from(val: Note) -> (r: Self) {
        ERule::EWarningRule(EWarningRule::Note(val))
    }
}

impl FromSpecImpl<Note> for ERule {
    open spec fn obeys_from_spec() -> bool {
        true
    }

    open spec fn from_spec(val: Note) -> Self {
        ERule::EWarningRule(EWarningRule::Note(val))
    }
}

impl From<Conflict> for ERule {
    fn from(val: Conflict) -> (r: Self) {
        ERule::EWarningRule(EWarningRule::Conflict(val))
    }
}

impl FromSpecImpl<Conflict> for ERule {
    open spec fn obeys_from_spec() -> bool {
        true
    }

    open spec fn from_spec(val: Conflict) -> Self {
        ERule::EWarningRule(EWarningRule::Conflict(val))
    }
}

impl From<Requires> for ERule {
    fn from(val: Requires) -> (r: Self) {
        ERule::EWarningRule(EWarningRule::Requires(val))
    }
}

impl FromSpecImpl<Requires> for ERule {
    open spec fn obeys_from_spec() -> bool {
        true
    }

    open spec fn from_spec(val: Requires) -> Self {
        ERule::EWarningRule(EWarningRule::Requires(val))
    }
}

impl From<Patch> for ERule {
    fn from(val: Patch) -> (r: Self) {
        ERule::EWarningRule(EWarningRule::Patch(val))
    }
}

impl FromSpecImpl<Patch> for ERule {
    open spec fn obeys_from_spec() -> bool {
        true
    }

    open spec fn from_spec(val: Patch) -> Self {
        ERule::EWarningRule(EWarningRule::Patch(val))
    }
}

impl From<Note> for EWarningRule {
    fn from(val: Note) -> (r: Self) {
        EWarningRule::Note(val)
    }
}

impl FromSpecImpl<Note> for EWarningRule {
    open spec fn obeys_from_spec() -> bool {
        true
    }

    open spec fn from_spec(val: Note) -> Self {
        EWarningRule::Note(val)
    }
}

impl From<Conflict> for EWarningRule {
    fn from(val: Conflict) -> (r: Self) {
        EWarningRule::Conflict(val)
    }
}

impl FromSpecImpl<Conflict> for EWarningRule {
    open spec fn obeys_from_spec() -> bool {
        true
    }

    open spec fn from_spec(val: Conflict) -> Self {
        EWarningRule::Conflict(val)
    }
}

impl From<Requires> for EWarningRule {
    fn from(val: Requires) -> (r: Self) {
        EWarningRule::Requires(val)
    }
}

impl FromSpecImpl<Requires> for EWarningRule {
    open spec fn obeys_from_spec() -> bool {
        true
    }

    open spec fn from_spec(val: Requires) -> Self {
        EWarningRule::Requires(val)
    }
}

impl From<Patch> for EWarningRule {
    fn from(val: Patch) -> (r: Self) {
        EWarningRule::Patch(val)
    }
}

impl FromSpecImpl<Patch> for EWarningRule {
    open spec fn obeys_from_spec() -> bool {
        true
    }

    open spec fn from_spec(val: Patch) -> Self {
        EWarningRule::Patch(val)
    }
}

/// The views of a list of rules.
pub open spec fn rule_views(v: Seq<ERule>) -> Seq<ERuleView> {
    Seq::new(v.len(), |i: int| v[i]@)
}

/// The views of a list of ordering rules.
pub open spec fn order_rule_views(v: Seq<EOrderRule>) -> Seq<EOrderRuleView> {
    Seq::new(v.len(), |i: int| v[i]@)
}

/// The views of a list of warning rules.
pub open spec fn warning_rule_views(v: Seq<EWarningRule>) -> Seq<EWarningRuleView> {
    Seq::new(v.len(), |i: int| v[i]@)
}

/// The comments of the rules that hold, in the order of the rules.
pub open spec fn due_comments(rules: Seq<EWarningRuleView>, mods: Seq<Seq<char>>) -> Seq<Seq<char>>
    decreases rules.len(),
{
    if rules.len() == 0 {
        Seq::empty()
    } else if warning_holds(rules.last(), mods) {
        due_comments(rules.drop_last(), mods).push(warning_comment(rules.last()))
    } else {
        due_comments(rules.drop_last(), mods)
    }
}

/// Evaluates the warning rules against the list of installed mods: the
/// comments of the rules that hold, in the order in which the rules were
/// declared.
pub fn get_warnings(rules: &Vec<EWarningRule>, mods: &[String]) -> (r: Vec<String>)
    ensures
        r.deep_view() == due_comments(warning_rule_views(rules@), mods.deep_view()),
{
    let ghost rs = warning_rule_views(rules@);
    let mut out: Vec<String> = Vec::new();
    let mut i: usize = 0;
    proof {
        assert(rs.take(0).len() == 0);
        assert(out.deep_view() =~= due_comments(rs.take(0), mods.deep_view()));
    }
    while i < rules.len()
        invariant
            i <= rules.len(),
            rs == warning_rule_views(rules@),
            out.deep_view() == due_comments(rs.take(i as int), mods.deep_view()),
        decreases rules.len() - i,
    {
        proof {
            crate::text::lemma_take_step(rs, i as int);
            assert(rs[i as int] == rules@[i as int]@);
        }
        if rules[i].eval(mods) {
            let ghost before = out.deep_view();
            let comment = rules[i].get_comment().to_owned();
            out.push(comment);
            proof {
                assert(out.deep_view() =~= before.push(warning_comment(rs[i as int])));
            }
        }
        i += 1;
    }
    proof {
        assert(rs.take(rules.len() as int) =~= rs);
    }
    out
}

// ---------------------------------------------------------------------------
// Parsing the body of a rule
// ---------------------------------------------------------------------------

/// A rule that can be filled in from the text of its body.
pub trait TParser<T> {
    /// What `parse` makes of the rule `before`, given the body and the
    /// extensions of the game: the rule `after` and the outcome `r`.
    spec fn parse_outcome(
        before: T,
        body: Seq<char>,
        exts: Seq<Seq<char>>,
        after: T,
        r: Result<(), ParseError>,
    ) -> bool;

    fn parse(rule: &mut T, body: &str, parser: &Parser) -> (r: Result<(), ParseError>)
        ensures
            Self::parse_outcome(*old(rule), body@, parser.ext.deep_view(), *final(rule), r),
    ;
}

/// Fills in the names of an ordering rule that needs `least` names.
fn parse_order_body(names: &mut Vec<String>, body: &str, parser: &Parser, least: usize) -> (r: Result<
    (),
    ParseError,
>)
    ensures
        (final(names).deep_view(), r) == parse_order_spec(
            parser.ext.deep_view(),
            old(names).deep_view(),
            body@,
            least as nat,
        ),
{
    let exts = strings_to_chars(&parser.ext);
    let chars = to_chars(body);
    match parse_names_chars(&exts, &chars) {
        Ok(parsed) => {
            *names = parsed;
            if names.len() < least {
                Err(ParseError::MalformedOrder)
            } else {
                Ok(())
            }
        },
        Err(e) => Err(e),
    }
}

/// Reads the comment and the expressions of the body of a warning rule.
fn parse_warning_body(comment: &mut String, body: &str, parser: &Parser) -> (r: Result<
    Vec<Expression>,
    ParseError,
>)
    ensures
        final(comment)@ == body_comment(old(comment)@, body@),
        crate::parser::expressions_match(
            r,
            crate::grammar::parse_expressions_spec(parser.ext.deep_view(), body_expressions(body@)),
        ),
{
    let exts = strings_to_chars(&parser.ext);
    let chars = to_chars(body);
    assert(chars@.skip(0) =~= chars@);
    let start = match read_comment_chars(&chars, 0) {
        Some((text, n)) => {
            *comment = from_chars(&text);
            n
        },
        None => 0,
    };
    let rest = subvec(&chars, start, chars.len());
    assert(rest@ =~= body_expressions(body@));
    parse_expressions_chars(&exts, &rest)
}

/// Fills in a `Note` or a `Conflict`.
fn parse_list_body(
    comment: &mut String,
    expressions: &mut Vec<Expression>,
    body: &str,
    parser: &Parser,
    malformed: ParseError,
) -> (r: Result<(), ParseError>)
    ensures
        (ListRuleView { comment: final(comment)@, expressions: views(final(expressions)@) }, r)
            == parse_list_rule_spec(
            parser.ext.deep_view(),
            ListRuleView { comment: old(comment)@, expressions: views(old(expressions)@) },
            body@,
            malformed,
        ),
{
    match parse_warning_body(comment, body, parser) {
        Ok(xs) => {
            *expressions = xs;
            if expressions.len() == 0 {
                Err(malformed)
            } else {
                Ok(())
            }
        },
        Err(e) => Err(e),
    }
}

/// Fills in a `Requires` or a `Patch`.
fn parse_pair_body(
    comment: &mut String,
    expression_a: &mut Option<Expression>,
    expression_b: &mut Option<Expression>,
    body: &str,
    parser: &Parser,
    malformed: ParseError,
) -> (r: Result<(), ParseError>)
    ensures
        (
            PairRuleView {
                comment: final(comment)@,
                expression_a: option_view(*final(expression_a)),
                expression_b: option_view(*final(expression_b)),
            },
            r,
        ) == parse_pair_rule_spec(
            parser.ext.deep_view(),
            PairRuleView {
                comment: old(comment)@,
                expression_a: option_view(*old(expression_a)),
                expression_b: option_view(*old(expression_b)),
            },
            body@,
            malformed,
        ),
{
    match parse_warning_body(comment, body, parser) {
        Ok(xs) => {
            let mut xs = xs;
            let ghost all = views(xs@);
            if xs.len() != 2 {
                return Err(malformed);
            }
            let second = xs.pop();
            let first = xs.pop();
            match (first, second) {
                (Some(a), Some(b)) => {
                    assert(a@ == all[0]);
                    assert(b@ == all[1]);
                    *expression_a = Some(a);
                    *expression_b = Some(b);
                    Ok(())
                },
                _ => Err(malformed),
            }
        },
        Err(e) => Err(e),
    }
}

impl TParser<Order> for Order {
    open spec fn parse_outcome(
        before: Order,
        body: Seq<char>,
        exts: Seq<Seq<char>>,
        after: Order,
        r: Result<(), ParseError>,
    ) -> bool {
        (after@, r) == parse_order_spec(exts, before@, body, 2)
    }

    /// Reads the names of the rule, two at least.
    fn parse(this: &mut Order, body: &str, parser: &Parser) -> (r: Result<(), ParseError>) {
        parse_order_body(&mut this.names, body, parser, 2)
    }
}

impl TParser<NearStart> for NearStart {
    open spec fn parse_outcome(
        before: NearStart,
        body: Seq<char>,
        exts: Seq<Seq<char>>,
        after: NearStart,
        r: Result<(), ParseError>,
    ) -> bool {
        (after@, r) == parse_order_spec(exts, before@, body, 0)
    }

    /// Reads the names of the rule.
    fn parse(this: &mut NearStart, body: &str, parser: &Parser) -> (r: Result<(), ParseError>) {
        parse_order_body(&mut this.names, body, parser, 0)
    }
}

impl TParser<NearEnd> for NearEnd {
    open spec fn parse_outcome(
        before: NearEnd,
        body: Seq<char>,
        exts: Seq<Seq<char>>,
        after: NearEnd,
        r: Result<(), ParseError>,
    ) -> bool {
        (after@, r) == parse_order_spec(exts, before@, body, 0)
    }

    /// Reads the names of the rule.
    fn parse(this: &mut NearEnd, body: &str, parser: &Parser) -> (r: Result<(), ParseError>) {
        parse_order_body(&mut this.names, body, parser, 0)
    }
}

impl TParser<Note> for Note {
    open spec fn parse_outcome(
        before: Note,
        body: Seq<char>,
        exts: Seq<Seq<char>>,
        after: Note,
        r: Result<(), ParseError>,
    ) -> bool {
        (after@, r) == parse_list_rule_spec(exts, before@, body, ParseError::MalformedNote)
    }

    /// Reads the comment, if the body starts with one, and the expressions
    /// of the rule, one at least.
    fn parse(this: &mut Note, body: &str, parser: &Parser) -> (r: Result<(), ParseError>) {
        parse_list_body(
            &mut this.comment,
            &mut this.expressions,
            body,
            parser,
            ParseError::MalformedNote,
        )
    }
}

impl TParser<Conflict> for Conflict {
    open spec fn parse_outcome(
        before: Conflict,
        body: Seq<char>,
        exts: Seq<Seq<char>>,
        after: Conflict,
        r: Result<(), ParseError>,
    ) -> bool {
        (after@, r) == parse_list_rule_spec(exts, before@, body, ParseError::MalformedConflict)
    }

    /// Reads the comment, if the body starts with one, and the expressions
    /// of the rule, one at least.
    fn parse(this: &mut Conflict, body: &str, parser: &Parser) -> (r: Result<(), ParseError>) {
        parse_list_body(
            &mut this.comment,
            &mut this.expressions,
            body,
            parser,
            ParseError::MalformedConflict,
        )
    }
}

impl TParser<Requires> for Requires {
    open spec fn parse_outcome(
        before: Requires,
        body: Seq<char>,
        exts: Seq<Seq<char>>,
        after: Requires,
        r: Result<(), ParseError>,
    ) -> bool {
        (after@, r) == parse_pair_rule_spec(exts, before@, body, ParseError::MalformedRequires)
    }

    /// Reads the comment, if the body starts with one, and the two
    /// expressions of the rule.
    fn parse(this: &mut Requires, body: &str, parser: &Parser) -> (r: Result<(), ParseError>) {
        parse_pair_body(
            &mut this.comment,
            &mut this.expression_a,
            &mut this.expression_b,
            body,
            parser,
            ParseError::MalformedRequires,
        )
    }
}

impl TParser<Patch> for Patch {
    open spec fn parse_outcome(
        before: Patch,
        body: Seq<char>,
        exts: Seq<Seq<char>>,
        after: Patch,
        r: Result<(), ParseError>,
    ) -> bool {
        (after@, r) == parse_pair_rule_spec(exts, before@, body, ParseError::MalformedPatch)
    }

    /// Reads the comment, if the body starts with one, and the two
    /// expressions of the rule.
    fn parse(this: &mut Patch, body: &str, parser: &Parser) -> (r: Result<(), ParseError>) {
        parse_pair_body(
            &mut this.comment,
            &mut this.expression_a,
            &mut this.expression_b,
            body,
            parser,
            ParseError::MalformedPatch,
        )
    }
}

impl TParser<EOrderRule> for EOrderRule {
    open spec fn parse_outcome(
        before: EOrderRule,
        body: Seq<char>,
        exts: Seq<Seq<char>>,
        after: EOrderRule,
        r: Result<(), ParseError>,
    ) -> bool {
        (after@, r) == parse_order_rule_spec(exts, before@, body)
    }

    fn parse(rule: &mut EOrderRule, body: &str, parser: &Parser) -> (r: Result<(), ParseError>) {
        match rule {
            EOrderRule::Order(rule) => Order::parse(rule, body, parser),
            EOrderRule::NearStart(rule) => NearStart::parse(rule, body, parser),
            EOrderRule::NearEnd(rule) => NearEnd::parse(rule, body, parser),
        }
    }
}

impl TParser<EWarningRule> for EWarningRule {
    open spec fn parse_outcome(
        before: EWarningRule,
        body: Seq<char>,
        exts: Seq<Seq<char>>,
        after: EWarningRule,
        r: Result<(), ParseError>,
    ) -> bool {
        (after@, r) == parse_warning_rule_spec(exts, before@, body)
    }

    fn parse(rule: &mut EWarningRule, body: &str, parser: &Parser) -> (r: Result<(), ParseError>) {
        match rule {
            EWarningRule::Note(rule) => Note::parse(rule, body, parser),
            EWarningRule::Conflict(rule) => Conflict::parse(rule, body, parser),
            EWarningRule::Requires(rule) => Requires::parse(rule, body, parser),
            EWarningRule::Patch(rule) => Patch::parse(rule, body, parser),
        }
    }
}

impl TParser<ERule> for ERule {
    open spec fn parse_outcome(
        before: ERule,
        body: Seq<char>,
        exts: Seq<Seq<char>>,
        after: ERule,
        r: Result<(), ParseError>,
    ) -> bool {
        (after@, r) == parse_rule_spec(exts, before@, body)
    }

    fn parse(rule: &mut ERule, body: &str, parser: &Parser) -> (r: Result<(), ParseError>) {
        match rule {
            ERule::EOrderRule(rule) => EOrderRule::parse(rule, body, parser),
            ERule::EWarningRule(rule) => EWarningRule::parse(rule, body, parser),
        }
    }
}

} // verus!
