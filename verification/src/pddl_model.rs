//! The parts of a parsed PDDL domain and problem that grounding reads, as
//! plain values, and their conversion from the syntax trees of the `pddl`
//! crate, which parses the text.

use vstd::prelude::*;

verus! {

/// The declared type of a typed name.
pub enum TypeRef {
    /// Exactly this type.
    Exactly(String),
    /// Either of these types.
    EitherOf(Vec<String>),
}

/// A name (object, constant, type or variable) with its type.
pub struct TypedName {
    pub name: String,
    pub type_ref: TypeRef,
}

/// A term: a name, a variable, or a function applied to terms.
pub enum TermModel {
    Name(String),
    Variable(String),
    Function(String, Vec<TermModel>),
}

/// An atomic formula: an equality of two terms or a predicate over terms.
pub enum AtomModel {
    Equality(TermModel, TermModel),
    Predicate(String, Vec<TermModel>),
}

/// A literal: an atomic formula or its negation.
pub enum LiteralModel {
    Positive(AtomModel),
    Negative(AtomModel),
}

/// A goal description.
pub enum GoalModel {
    Atom(AtomModel),
    Literal(LiteralModel),
    And(Vec<GoalModel>),
    Or(Vec<GoalModel>),
    Not(Box<GoalModel>),
    Imply(Box<GoalModel>, Box<GoalModel>),
    Exists(Vec<TypedName>, Box<GoalModel>),
    ForAll(Vec<TypedName>, Box<GoalModel>),
    /// A numeric comparison.
    FluentComparison,
}

/// A precondition or goal entry: a plain goal, a preference, or a
/// universally quantified list.
pub enum PreGoalModel {
    Goal(GoalModel),
    Preference,
    Forall,
}

/// A primitive effect.
pub enum PrimEffectModel {
    Add(AtomModel),
    Delete(AtomModel),
    /// A numeric assignment: whether it increases, the function's name, and
    /// the amount when it is a number (as an unsigned integer).
    AssignNumeric { increase: bool, function: String, amount: Option<u32> },
    /// An assignment of an object fluent.
    AssignObject,
}

/// The consequent of a conditional effect: one effect or several.
pub enum EffectConditionModel {
    Single(PrimEffectModel),
    All(Vec<PrimEffectModel>),
}

/// An effect: primitive, universally quantified, or conditional.
pub enum CEffectModel {
    Effect(PrimEffectModel),
    Forall(Vec<CEffectModel>),
    When(GoalModel, EffectConditionModel),
}

/// An action schema.
pub struct ActionModel {
    pub name: String,
    pub parameters: Vec<TypedName>,
    pub precondition: Vec<PreGoalModel>,
    pub effect: Option<Vec<CEffectModel>>,
}

/// A derived predicate: its head and body.
pub struct DerivedModel {
    pub name: String,
    pub parameters: Vec<TypedName>,
    pub body: GoalModel,
}

/// An entry of the domain's structure.
pub enum StructureModel {
    Action(ActionModel),
    DurativeAction,
    Derived(DerivedModel),
}

/// A predicate declaration.
pub struct PredicateModel {
    pub name: String,
    pub parameters: Vec<TypedName>,
}

/// A parsed domain.
pub struct PddlDomain {
    pub name: String,
    pub requirements: Vec<String>,
    pub types: Vec<TypedName>,
    pub constants: Vec<TypedName>,
    pub predicates: Vec<PredicateModel>,
    pub structure: Vec<StructureModel>,
}

/// An atomic formula over names.
pub enum NameAtomModel {
    Equality(String, String),
    Predicate(String, Vec<String>),
}

/// An element of a problem's initial state.
pub enum InitModel {
    Literal(bool, NameAtomModel),
    /// A timed literal.
    At,
    /// A numeric fluent value.
    IsValue,
    /// An object fluent value.
    IsObject,
}

/// Whether the metric is minimized or maximized.
pub enum OptimizationModel {
    Minimize,
    Maximize,
}

/// A parsed problem.
pub struct PddlProblem {
    pub name: String,
    pub domain: String,
    pub objects: Vec<TypedName>,
    pub init: Vec<InitModel>,
    pub goals: Vec<PreGoalModel>,
    pub metric: Option<OptimizationModel>,
}

/// The domains and problems of one text, in order.
pub struct PddlFile {
    pub domains: Vec<PddlDomain>,
    pub problems: Vec<PddlProblem>,
}

#[verifier::external_type_specification]
#[verifier::external_body]
pub struct ExPddlType(pddl::Type);

#[verifier::external_type_specification]
#[verifier::external_body]
#[verifier::reject_recursive_types(O)]
pub struct ExPddlTyped<O>(pddl::Typed<O>);

#[verifier::external_type_specification]
#[verifier::external_body]
pub struct ExPddlName(pddl::Name);

#[verifier::external_type_specification]
#[verifier::external_body]
pub struct ExPddlVariable(pddl::Variable);

#[verifier::external_type_specification]
#[verifier::external_body]
pub struct ExPddlTerm(pddl::Term);

#[verifier::external_type_specification]
#[verifier::external_body]
#[verifier::reject_recursive_types(T)]
pub struct ExPddlAtomicFormula<T>(pddl::AtomicFormula<T>);

#[verifier::external_type_specification]
#[verifier::external_body]
#[verifier::reject_recursive_types(T)]
pub struct ExPddlLiteral<T>(pddl::Literal<T>);

#[verifier::external_type_specification]
#[verifier::external_body]
pub struct ExPddlGoalDefinition(pddl::GoalDefinition);

#[verifier::external_type_specification]
#[verifier::external_body]
pub struct ExPddlPreconditionGoalDefinition(pddl::PreconditionGoalDefinition);

#[verifier::external_type_specification]
#[verifier::external_body]
pub struct ExPddlPrimitiveEffect(pddl::PrimitiveEffect);

#[verifier::external_type_specification]
#[verifier::external_body]
pub struct ExPddlConditionalEffect(pddl::ConditionalEffect);

#[verifier::external_type_specification]
#[verifier::external_body]
pub struct ExPddlStructureDef(pddl::StructureDef);

#[verifier::external_type_specification]
#[verifier::external_body]
pub struct ExPddlAtomicFormulaSkeleton(pddl::AtomicFormulaSkeleton);

#[verifier::external_type_specification]
#[verifier::external_body]
pub struct ExPddlInitElement(pddl::InitElement);

#[verifier::external_type_specification]
#[verifier::external_body]
pub struct ExPddlDomain(pddl::Domain);

#[verifier::external_type_specification]
#[verifier::external_body]
pub struct ExPddlProblem(pddl::Problem);

/// Converts a `pddl::Type`: each variant to the same variant, each
/// primitive type to its display text.
#[verifier::external_body]
fn convert_type(t: &pddl::Type) -> TypeRef {
    match t {
        pddl::Type::Exactly(pt) => TypeRef::Exactly(pt.to_string()),
        pddl::Type::EitherOf(pts) => TypeRef::EitherOf(pts.iter().map(|p| p.to_string()).collect()),
    }
}

/// Converts a list of `pddl::Typed<pddl::Name>`, in order: each value to its
/// display text, each type by `convert_type`.
#[verifier::external_body]
fn convert_typed_names(l: &[pddl::Typed<pddl::Name>]) -> Vec<TypedName> {
    l.iter().map(|t| TypedName { name: t.value().to_string(), type_ref: convert_type(t.type_()) }).collect()
}

/// Converts a list of `pddl::Typed<pddl::Variable>`, in order: each variable
/// to its display text (with its `?`), each type by `convert_type`.
#[verifier::external_body]
fn convert_typed_variables(l: &[pddl::Typed<pddl::Variable>]) -> Vec<TypedName> {
    l.iter().map(|t| TypedName { name: t.value().to_string(), type_ref: convert_type(t.type_()) }).collect()
}

/// Converts a `pddl::Term`: names and variables to their display text, a
/// function term to its symbol's text and its converted terms.
#[verifier::external_body]
fn convert_term(t: &pddl::Term) -> TermModel {
    match t {
        pddl::Term::Name(n) => TermModel::Name(n.to_string()),
        pddl::Term::Variable(v) => TermModel::Variable(v.to_string()),
        pddl::Term::Function(f) => TermModel::Function(f.symbol().to_string(), f.terms().iter().map(convert_term).collect()),
    }
}

/// Converts a `pddl::AtomicFormula<pddl::Term>`: each variant to the same
/// variant, the predicate to its text, the terms by `convert_term`.
#[verifier::external_body]
fn convert_atom(a: &pddl::AtomicFormula<pddl::Term>) -> AtomModel {
    match a {
        pddl::AtomicFormula::Equality(eq) => AtomModel::Equality(convert_term(eq.first()), convert_term(eq.second())),
        pddl::AtomicFormula::Predicate(p) => AtomModel::Predicate(p.predicate().to_string(), p.values().iter().map(convert_term).collect()),
    }
}

/// Converts a `pddl::Literal<pddl::Term>`: a positive or negated atom by
/// `convert_atom`.
#[verifier::external_body]
fn convert_literal(l: &pddl::Literal<pddl::Term>) -> LiteralModel {
    match l {
        pddl::Literal::AtomicFormula(a) => LiteralModel::Positive(convert_atom(a)),
        pddl::Literal::NotAtomicFormula(a) => LiteralModel::Negative(convert_atom(a)),
    }
}

/// Converts a list of `pddl::GoalDefinition`, in order, by `convert_gd`.
#[verifier::external_body]
fn convert_gds(gs: &[pddl::GoalDefinition]) -> Vec<GoalModel> {
    gs.iter().map(convert_gd).collect()
}

/// Converts a `pddl::GoalDefinition` by `convert_gd`, boxed.
#[verifier::external_body]
fn boxed_gd(g: &pddl::GoalDefinition) -> Box<GoalModel> {
    Box::new(convert_gd(g))
}

/// Converts a `pddl::GoalDefinition`: each variant to the same variant, the
/// parts by the other conversions.
#[verifier::external_body]
fn convert_gd(g: &pddl::GoalDefinition) -> GoalModel {
    match g {
        pddl::GoalDefinition::AtomicFormula(a) => GoalModel::Atom(convert_atom(a)),
        pddl::GoalDefinition::Literal(l) => GoalModel::Literal(convert_literal(l)),
        pddl::GoalDefinition::And(gs) => GoalModel::And(convert_gds(gs)),
        pddl::GoalDefinition::Or(gs) => GoalModel::Or(convert_gds(gs)),
        pddl::GoalDefinition::Not(g) => GoalModel::Not(boxed_gd(g)),
        pddl::GoalDefinition::Imply(a, b) => GoalModel::Imply(boxed_gd(a), boxed_gd(b)),
        pddl::GoalDefinition::Exists(vs, g) => GoalModel::Exists(convert_typed_variables(vs), boxed_gd(g)),
        pddl::GoalDefinition::ForAll(vs, g) => GoalModel::ForAll(convert_typed_variables(vs), boxed_gd(g)),
        pddl::GoalDefinition::FluentComparison(_) => GoalModel::FluentComparison,
    }
}

/// Converts a `pddl::PreconditionGoalDefinition`: a plain goal by
/// `convert_gd`, a preference and a quantified list to their markers.
#[verifier::external_body]
fn convert_pre_gd(p: &pddl::PreconditionGoalDefinition) -> PreGoalModel {
    match p {
        pddl::PreconditionGoalDefinition::Preference(pddl::PreferenceGoalDefinition::Goal(g)) => PreGoalModel::Goal(convert_gd(g)),
        pddl::PreconditionGoalDefinition::Preference(pddl::PreferenceGoalDefinition::Preference(_)) => PreGoalModel::Preference,
        pddl::PreconditionGoalDefinition::Forall(_, _) => PreGoalModel::Forall,
    }
}

/// Converts a `pddl::PrimitiveEffect`: each variant to the same variant; of
/// a numeric assignment, whether it is `increase`, the function symbol's
/// text, and a numeric amount cast to `u32`.
#[verifier::external_body]
fn convert_p_effect(p: &pddl::PrimitiveEffect) -> PrimEffectModel {
    match p {
        pddl::PrimitiveEffect::AtomicFormula(a) => PrimEffectModel::Add(convert_atom(a)),
        pddl::PrimitiveEffect::NotAtomicFormula(a) => PrimEffectModel::Delete(convert_atom(a)),
        pddl::PrimitiveEffect::AssignNumericFluent(op, head, exp) => PrimEffectModel::AssignNumeric {
            increase: matches!(op, pddl::AssignOp::Increase),
            function: match head { pddl::FunctionHead::Simple(f) | pddl::FunctionHead::WithTerms(f, _) => f.to_string() },
            amount: match exp { pddl::FluentExpression::Number(n) => Some(**n as u32), _ => None },
        },
        pddl::PrimitiveEffect::AssignObjectFluent(_, _) => PrimEffectModel::AssignObject,
    }
}

/// Converts a `pddl::ConditionalEffect`: each variant to the same variant,
/// the parts by the other conversions.
#[verifier::external_body]
fn convert_c_effect(c: &pddl::ConditionalEffect) -> CEffectModel {
    match c {
        pddl::ConditionalEffect::Effect(p) => CEffectModel::Effect(convert_p_effect(p)),
        pddl::ConditionalEffect::Forall(f) => CEffectModel::Forall(f.effects.iter().map(convert_c_effect).collect()),
        pddl::ConditionalEffect::When(w) => CEffectModel::When(convert_gd(&w.condition), match &w.effect {
            pddl::EffectCondition::Single(p) => EffectConditionModel::Single(convert_p_effect(p)),
            pddl::EffectCondition::All(ps) => EffectConditionModel::All(ps.iter().map(convert_p_effect).collect()),
        }),
    }
}

/// Converts a `pddl::StructureDef`: an action's symbol, parameters,
/// preconditions and effects, a derived predicate's head and body, each by
/// the other conversions; a durative action to its marker.
#[verifier::external_body]
fn convert_structure(s: &pddl::StructureDef) -> StructureModel {
    match s {
        pddl::StructureDef::Action(a) => StructureModel::Action(ActionModel {
            name: a.symbol().to_string(),
            parameters: convert_typed_variables(a.parameters()),
            precondition: a.precondition().iter().map(convert_pre_gd).collect(),
            effect: a.effect().as_ref().map(|e| e.iter().map(convert_c_effect).collect()),
        }),
        pddl::StructureDef::DurativeAction(_) => StructureModel::DurativeAction,
        pddl::StructureDef::Derived(d) => StructureModel::Derived(DerivedModel {
            name: d.predicate().predicate().to_string(),
            parameters: convert_typed_variables(d.predicate().variables()),
            body: convert_gd(d.expression()),
        }),
    }
}

/// Converts a `pddl::AtomicFormulaSkeleton` (a predicate declaration): its
/// predicate's text and its variables.
#[verifier::external_body]
fn convert_predicate(p: &pddl::AtomicFormulaSkeleton) -> PredicateModel {
    PredicateModel { name: p.predicate().to_string(), parameters: convert_typed_variables(p.variables()) }
}

/// Converts a `pddl::AtomicFormula<pddl::Name>`: an equality to its two
/// names' texts, a predicate to its text and its names' texts.
#[verifier::external_body]
fn convert_name_atom(a: &pddl::AtomicFormula<pddl::Name>) -> NameAtomModel {
    match a {
        pddl::AtomicFormula::Equality(eq) => NameAtomModel::Equality(eq.first().to_string(), eq.second().to_string()),
        pddl::AtomicFormula::Predicate(p) => NameAtomModel::Predicate(p.predicate().to_string(), p.values().iter().map(|n| n.to_string()).collect()),
    }
}

/// Converts a `pddl::InitElement`: a literal to whether it is positive and
/// its atom by `convert_name_atom`; the other variants to their markers.
#[verifier::external_body]
fn convert_init(e: &pddl::InitElement) -> InitModel {
    match e {
        pddl::InitElement::Literal(pddl::Literal::AtomicFormula(a)) => InitModel::Literal(true, convert_name_atom(a)),
        pddl::InitElement::Literal(pddl::Literal::NotAtomicFormula(a)) => InitModel::Literal(false, convert_name_atom(a)),
        pddl::InitElement::At(_, _) => InitModel::At,
        pddl::InitElement::IsValue(_, _) => InitModel::IsValue,
        pddl::InitElement::IsObject(_, _) => InitModel::IsObject,
    }
}

/// Converts a `pddl::Domain`: its name, requirements (as text), types,
/// constants, predicate declarations and structure, in order.
#[verifier::external_body]
fn convert_domain(d: &pddl::Domain) -> PddlDomain {
    PddlDomain {
        name: d.name().to_string(),
        requirements: d.requirements().iter().map(|r| r.to_string()).collect(),
        types: convert_typed_names(d.types()),
        constants: convert_typed_names(d.constants()),
        predicates: d.predicates().iter().map(convert_predicate).collect(),
        structure: d.structure().iter().map(convert_structure).collect(),
    }
}

/// Converts a `pddl::Problem`: its name, domain name, objects, initial
/// elements, goals and the direction of its metric, in order.
#[verifier::external_body]
fn convert_problem(p: &pddl::Problem) -> PddlProblem {
    PddlProblem {
        name: p.name().to_string(),
        domain: p.domain().to_string(),
        objects: convert_typed_names(p.objects()),
        init: p.init().iter().map(convert_init).collect(),
        goals: p.goals().iter().map(convert_pre_gd).collect(),
        metric: p.metric_spec().as_ref().map(|m| match m.optimization() {
            pddl::Optimization::Minimize => OptimizationModel::Minimize,
            pddl::Optimization::Maximize => OptimizationModel::Maximize,
        }),
    }
}

/// What `pddl`'s parser makes of a domain text, converted: the domain, or
/// the parse error's display text.
pub uninterp spec fn parsed_domain(s: Seq<char>) -> Result<PddlDomain, Seq<char>>;

/// What `pddl`'s parser makes of a problem text, converted.
pub uninterp spec fn parsed_problem(s: Seq<char>) -> Result<PddlProblem, Seq<char>>;

/// What `pddl`'s parser makes of a text of several definitions, converted.
pub uninterp spec fn parsed_file(s: Seq<char>) -> Result<PddlFile, Seq<char>>;

/// Calls `<pddl::Domain as pddl::Parser>::from_str` and converts the domain,
/// or gives the parse error's display text. The parser is a function of the
/// text alone; what it accepts and builds is not stated here, only named.
#[verifier::external_body]
pub(crate) fn parse_domain_text(s: &str) -> (r: Result<PddlDomain, String>)
    ensures
        match r {
            Ok(d) => parsed_domain(s@) == Ok::<PddlDomain, Seq<char>>(d),
            Err(m) => parsed_domain(s@) == Err::<PddlDomain, Seq<char>>(m@),
        },
{
    <pddl::Domain as pddl::Parser>::from_str(s).map(|d| convert_domain(&d)).map_err(|e| e.to_string())
}

/// Calls `<pddl::Problem as pddl::Parser>::from_str` and converts the
/// problem, or gives the parse error's display text.
#[verifier::external_body]
pub(crate) fn parse_problem_text(s: &str) -> (r: Result<PddlProblem, String>)
    ensures
        match r {
            Ok(p) => parsed_problem(s@) == Ok::<PddlProblem, Seq<char>>(p),
            Err(m) => parsed_problem(s@) == Err::<PddlProblem, Seq<char>>(m@),
        },
{
    <pddl::Problem as pddl::Parser>::from_str(s).map(|p| convert_problem(&p)).map_err(|e| e.to_string())
}

/// Calls `<pddl::PddlFile as pddl::Parser>::from_str` and converts every
/// domain and problem, in order, or gives the parse error's display text.
#[verifier::external_body]
pub(crate) fn parse_file_text(s: &str) -> (r: Result<PddlFile, String>)
    ensures
        match r {
            Ok(f) => parsed_file(s@) == Ok::<PddlFile, Seq<char>>(f),
            Err(m) => parsed_file(s@) == Err::<PddlFile, Seq<char>>(m@),
        },
{
    <pddl::PddlFile as pddl::Parser>::from_str(s).map(|f| PddlFile {
        domains: f.domains.iter().map(convert_domain).collect(),
        problems: f.problems.iter().map(convert_problem).collect(),
    }).map_err(|e| e.to_string())
}

} // verus!
