//! RDF terms and the term patterns that occur in query plans.

use vstd::prelude::*;

verus! {

/// The datatype of booleans.
pub const XSD_BOOLEAN: &'static str = "http://www.w3.org/2001/XMLSchema#boolean";

/// The datatype of single-precision numbers.
pub const XSD_FLOAT: &'static str = "http://www.w3.org/2001/XMLSchema#float";

/// The datatype of double-precision numbers.
pub const XSD_DOUBLE: &'static str = "http://www.w3.org/2001/XMLSchema#double";

/// The datatype of plain strings.
pub const XSD_STRING: &'static str = "http://www.w3.org/2001/XMLSchema#string";

/// The datatype of strings with a language tag.
pub const RDF_LANG_STRING: &'static str = "http://www.w3.org/1999/02/22-rdf-syntax-ns#langString";

/// An IRI.
#[derive(Debug, PartialEq, Eq, Hash)]
pub struct NamedNode {
    pub iri: String,
}

impl View for NamedNode {
    type V = Seq<char>;

    open spec fn view(&self) -> Seq<char> {
        self.iri@
    }
}

impl Clone for NamedNode {
    fn clone(&self) -> (r: Self)
        ensures
            r == *self,
    {
        NamedNode { iri: self.iri.clone() }
    }
}

impl NamedNode {
    /// The node with the given IRI, which is taken as it stands.
    pub fn new_unchecked(iri: &str) -> (r: Self)
        ensures
            r@ == iri@,
    {
        NamedNode { iri: iri.to_owned() }
    }

    /// The text of the IRI.
    pub fn as_str(&self) -> (r: &str)
        ensures
            r@ == self@,
    {
        self.iri.as_str()
    }

    /// Whether both nodes have the same IRI.
    pub fn same(&self, other: &Self) -> (r: bool)
        ensures
            r == (self@ == other@),
    {
        self.iri == other.iri
    }
}

/// A query variable.
#[derive(Debug, PartialEq, Eq, Hash)]
pub struct Variable {
    pub name: String,
}

impl View for Variable {
    type V = Seq<char>;

    open spec fn view(&self) -> Seq<char> {
        self.name@
    }
}

impl Clone for Variable {
    fn clone(&self) -> (r: Self)
        ensures
            r == *self,
    {
        Variable { name: self.name.clone() }
    }
}

impl Variable {
    /// The variable with the given name, which is taken as it stands.
    pub fn new_unchecked(name: &str) -> (r: Self)
        ensures
            r@ == name@,
    {
        Variable { name: name.to_owned() }
    }

    /// The name of the variable.
    pub fn as_str(&self) -> (r: &str)
        ensures
            r@ == self@,
    {
        self.name.as_str()
    }

    /// Whether both variables have the same name.
    pub fn same(&self, other: &Self) -> (r: bool)
        ensures
            r == (self@ == other@),
    {
        self.name == other.name
    }
}

/// The names of a list of variables.
pub open spec fn names(variables: Seq<Variable>) -> Seq<Seq<char>> {
    variables.map_values(|v: Variable| v@)
}

/// A copy of a list of variables.
pub fn clone_variables(variables: &Vec<Variable>) -> (r: Vec<Variable>)
    ensures
        names(r@) == names(variables@),
{
    let mut copy: Vec<Variable> = Vec::new();
    for i in 0..variables.len()
        invariant
            copy@.len() == i,
            forall|j: int| 0 <= j < i ==> (#[trigger] copy@[j])@ == variables@[j]@,
    {
        copy.push(variables[i].clone());
    }
    assert(names(copy@) =~= names(variables@));
    copy
}

/// Whether a list holds a variable.
pub fn contains_variable(variables: &Vec<Variable>, variable: &Variable) -> (r: bool)
    ensures
        r == names(variables@).contains(variable@),
{
    for i in 0..variables.len()
        invariant
            forall|j: int| 0 <= j < i ==> (#[trigger] names(variables@)[j]) != variable@,
    {
        if variables[i].same(variable) {
            assert(names(variables@)[i as int] == variable@);
            return true;
        }
    }
    false
}

/// What a literal consists of.
pub ghost struct LiteralView {
    pub value: Seq<char>,
    pub datatype: Seq<char>,
    pub language: Option<Seq<char>>,
}

/// A literal: a lexical value with its datatype and, for a tagged string, its
/// language (followed by `--` and the base direction, where it has one).
#[derive(Debug, PartialEq, Eq, Hash)]
pub struct Literal {
    pub value: String,
    pub datatype: NamedNode,
    pub language: Option<String>,
}

impl View for Literal {
    type V = LiteralView;

    open spec fn view(&self) -> LiteralView {
        LiteralView {
            value: self.value@,
            datatype: self.datatype@,
            language: match self.language {
                Some(language) => Some(language@),
                None => None,
            },
        }
    }
}

impl Clone for Literal {
    fn clone(&self) -> (r: Self)
        ensures
            r@ == self@,
    {
        let language = match &self.language {
            Some(language) => Some(language.clone()),
            None => None,
        };
        Literal { value: self.value.clone(), datatype: self.datatype.clone(), language }
    }
}

/// The literal that stands for a boolean.
pub open spec fn boolean_literal(value: bool) -> LiteralView {
    LiteralView {
        value: if value { "true"@ } else { "false"@ },
        datatype: XSD_BOOLEAN@,
        language: None,
    }
}

impl Literal {
    /// A plain string.
    pub fn new_simple_literal(value: &str) -> (r: Self)
        ensures
            r@ == (LiteralView { value: value@, datatype: XSD_STRING@, language: None }),
    {
        Literal {
            value: value.to_owned(),
            datatype: NamedNode::new_unchecked(XSD_STRING),
            language: None,
        }
    }

    /// A literal with a datatype.
    pub fn new_typed_literal(value: &str, datatype: NamedNode) -> (r: Self)
        ensures
            r@ == (LiteralView { value: value@, datatype: datatype@, language: None }),
    {
        Literal { value: value.to_owned(), datatype, language: None }
    }

    /// A string with a language tag, which is taken as it stands.
    pub fn new_language_tagged_literal_unchecked(value: &str, language: &str) -> (r: Self)
        ensures
            r@ == (LiteralView {
                value: value@,
                datatype: RDF_LANG_STRING@,
                language: Some(language@),
            }),
    {
        Literal {
            value: value.to_owned(),
            datatype: NamedNode::new_unchecked(RDF_LANG_STRING),
            language: Some(language.to_owned()),
        }
    }

    /// The literal that stands for a boolean.
    pub fn boolean(value: bool) -> (r: Self)
        ensures
            r@ == boolean_literal(value),
    {
        Self::new_typed_literal(
            if value { "true" } else { "false" },
            NamedNode::new_unchecked(XSD_BOOLEAN),
        )
    }

    /// Whether both literals agree in every part.
    pub fn same(&self, other: &Self) -> (r: bool)
        ensures
            r == (self@ == other@),
    {
        let same_language = match (&self.language, &other.language) {
            (Some(left), Some(right)) => *left == *right,
            (None, None) => true,
            _ => false,
        };
        same_language && self.value == other.value && self.datatype.same(&other.datatype)
    }
}

/// What a ground term consists of.
pub ghost enum GroundTermView {
    NamedNode(Seq<char>),
    Literal(LiteralView),
    Triple { subject: Seq<char>, predicate: Seq<char>, object: Box<GroundTermView> },
}

/// A term without variables.
#[derive(Debug, PartialEq, Eq, Hash)]
pub enum GroundTerm {
    NamedNode(NamedNode),
    Literal(Literal),
    Triple(Box<GroundTriple>),
}

/// A triple without variables.
#[derive(Debug, PartialEq, Eq, Hash)]
pub struct GroundTriple {
    pub subject: NamedNode,
    pub predicate: NamedNode,
    pub object: GroundTerm,
}

pub open spec fn ground_term_view(term: GroundTerm) -> GroundTermView
    decreases term,
{
    match term {
        GroundTerm::NamedNode(node) => GroundTermView::NamedNode(node@),
        GroundTerm::Literal(literal) => GroundTermView::Literal(literal@),
        GroundTerm::Triple(triple) => GroundTermView::Triple {
            subject: triple.subject@,
            predicate: triple.predicate@,
            object: Box::new(ground_term_view(triple.object)),
        },
    }
}

impl View for GroundTerm {
    type V = GroundTermView;

    open spec fn view(&self) -> GroundTermView {
        ground_term_view(*self)
    }
}

fn clone_ground_term(term: &GroundTerm) -> (r: GroundTerm)
    ensures
        r@ == term@,
    decreases term,
{
    match term {
        GroundTerm::NamedNode(node) => GroundTerm::NamedNode(node.clone()),
        GroundTerm::Literal(literal) => GroundTerm::Literal(literal.clone()),
        GroundTerm::Triple(triple) => GroundTerm::Triple(
            Box::new(
                GroundTriple {
                    subject: triple.subject.clone(),
                    predicate: triple.predicate.clone(),
                    object: clone_ground_term(&triple.object),
                },
            ),
        ),
    }
}

impl Clone for GroundTerm {
    fn clone(&self) -> (r: Self)
        ensures
            r@ == self@,
    {
        clone_ground_term(self)
    }
}

impl Clone for GroundTriple {
    fn clone(&self) -> (r: Self)
        ensures
            r.subject@ == self.subject@,
            r.predicate@ == self.predicate@,
            r.object@ == self.object@,
    {
        GroundTriple {
            subject: self.subject.clone(),
            predicate: self.predicate.clone(),
            object: self.object.clone(),
        }
    }
}

/// What a node pattern consists of.
pub ghost enum NodePatternView {
    NamedNode(Seq<char>),
    Variable(Seq<char>),
}

/// An IRI or a variable that stands for one.
#[derive(Debug, PartialEq, Eq, Hash)]
pub enum NamedNodePattern {
    NamedNode(NamedNode),
    Variable(Variable),
}

impl View for NamedNodePattern {
    type V = NodePatternView;

    open spec fn view(&self) -> NodePatternView {
        match self {
            NamedNodePattern::NamedNode(node) => NodePatternView::NamedNode(node@),
            NamedNodePattern::Variable(variable) => NodePatternView::Variable(variable@),
        }
    }
}

impl Clone for NamedNodePattern {
    fn clone(&self) -> (r: Self)
        ensures
            r@ == self@,
    {
        match self {
            NamedNodePattern::NamedNode(node) => NamedNodePattern::NamedNode(node.clone()),
            NamedNodePattern::Variable(variable) => NamedNodePattern::Variable(variable.clone()),
        }
    }
}

impl NamedNodePattern {
    /// Whether both patterns are the same.
    pub fn same(&self, other: &Self) -> (r: bool)
        ensures
            r == (self@ == other@),
    {
        match (self, other) {
            (NamedNodePattern::NamedNode(left), NamedNodePattern::NamedNode(right)) => left.same(
                right,
            ),
            (NamedNodePattern::Variable(left), NamedNodePattern::Variable(right)) => left.same(
                right,
            ),
            _ => false,
        }
    }
}

/// The pattern behind an optional graph name.
pub open spec fn graph_name_view(graph_name: Option<NamedNodePattern>) -> Option<NodePatternView> {
    match graph_name {
        Some(pattern) => Some(pattern@),
        None => None,
    }
}

pub fn clone_graph_name(graph_name: &Option<NamedNodePattern>) -> (r: Option<NamedNodePattern>)
    ensures
        graph_name_view(r) == graph_name_view(*graph_name),
{
    match graph_name {
        Some(pattern) => Some(pattern.clone()),
        None => None,
    }
}

pub fn same_graph_name(left: &Option<NamedNodePattern>, right: &Option<NamedNodePattern>) -> (r:
    bool)
    ensures
        r == (graph_name_view(*left) == graph_name_view(*right)),
{
    match (left, right) {
        (Some(left), Some(right)) => left.same(right),
        (None, None) => true,
        _ => false,
    }
}

/// What a term pattern consists of.
pub ghost enum TermPatternView {
    NamedNode(Seq<char>),
    Literal(LiteralView),
    Variable(Seq<char>),
    Triple {
        subject: Box<TermPatternView>,
        predicate: NodePatternView,
        object: Box<TermPatternView>,
    },
}

/// A term, a variable, or a quoted triple of such patterns.
#[derive(Debug, PartialEq, Eq, Hash)]
pub enum GroundTermPattern {
    NamedNode(NamedNode),
    Literal(Literal),
    Variable(Variable),
    Triple(Box<GroundTriplePattern>),
}

/// A quoted triple pattern.
#[derive(Debug, PartialEq, Eq, Hash)]
pub struct GroundTriplePattern {
    pub subject: GroundTermPattern,
    pub predicate: NamedNodePattern,
    pub object: GroundTermPattern,
}

pub open spec fn term_pattern_view(pattern: GroundTermPattern) -> TermPatternView
    decreases pattern,
{
    match pattern {
        GroundTermPattern::NamedNode(node) => TermPatternView::NamedNode(node@),
        GroundTermPattern::Literal(literal) => TermPatternView::Literal(literal@),
        GroundTermPattern::Variable(variable) => TermPatternView::Variable(variable@),
        GroundTermPattern::Triple(triple) => TermPatternView::Triple {
            subject: Box::new(term_pattern_view(triple.subject)),
            predicate: triple.predicate@,
            object: Box::new(term_pattern_view(triple.object)),
        },
    }
}

impl View for GroundTermPattern {
    type V = TermPatternView;

    open spec fn view(&self) -> TermPatternView {
        term_pattern_view(*self)
    }
}

fn clone_term_pattern(pattern: &GroundTermPattern) -> (r: GroundTermPattern)
    ensures
        r@ == pattern@,
    decreases pattern,
{
    match pattern {
        GroundTermPattern::NamedNode(node) => GroundTermPattern::NamedNode(node.clone()),
        GroundTermPattern::Literal(literal) => GroundTermPattern::Literal(literal.clone()),
        GroundTermPattern::Variable(variable) => GroundTermPattern::Variable(variable.clone()),
        GroundTermPattern::Triple(triple) => GroundTermPattern::Triple(
            Box::new(
                GroundTriplePattern {
                    subject: clone_term_pattern(&triple.subject),
                    predicate: triple.predicate.clone(),
                    object: clone_term_pattern(&triple.object),
                },
            ),
        ),
    }
}

fn same_term_pattern(left: &GroundTermPattern, right: &GroundTermPattern) -> (r: bool)
    ensures
        r == (left@ == right@),
    decreases left,
{
    match (left, right) {
        (GroundTermPattern::NamedNode(left), GroundTermPattern::NamedNode(right)) => left.same(
            right,
        ),
        (GroundTermPattern::Literal(left), GroundTermPattern::Literal(right)) => left.same(right),
        (GroundTermPattern::Variable(left), GroundTermPattern::Variable(right)) => left.same(right),
        (GroundTermPattern::Triple(left), GroundTermPattern::Triple(right)) => {
            same_term_pattern(&left.subject, &right.subject) && left.predicate.same(
                &right.predicate,
            ) && same_term_pattern(&left.object, &right.object)
        },
        _ => false,
    }
}

impl Clone for GroundTermPattern {
    fn clone(&self) -> (r: Self)
        ensures
            r@ == self@,
    {
        clone_term_pattern(self)
    }
}

impl Clone for GroundTriplePattern {
    fn clone(&self) -> (r: Self)
        ensures
            r.subject@ == self.subject@,
            r.predicate@ == self.predicate@,
            r.object@ == self.object@,
    {
        GroundTriplePattern {
            subject: self.subject.clone(),
            predicate: self.predicate.clone(),
            object: self.object.clone(),
        }
    }
}

impl GroundTermPattern {
    /// Whether both patterns are the same.
    pub fn same(&self, other: &Self) -> (r: bool)
        ensures
            r == (self@ == other@),
    {
        same_term_pattern(self, other)
    }
}

impl From<NamedNode> for NamedNodePattern {
    fn from(node: NamedNode) -> (r: Self) {
        NamedNodePattern::NamedNode(node)
    }
}

impl vstd::std_specs::convert::FromSpecImpl<NamedNode> for NamedNodePattern {
    open spec fn obeys_from_spec() -> bool {
        true
    }

    open spec fn from_spec(node: NamedNode) -> Self {
        NamedNodePattern::NamedNode(node)
    }
}

impl From<Variable> for NamedNodePattern {
    fn from(variable: Variable) -> (r: Self) {
        NamedNodePattern::Variable(variable)
    }
}

impl vstd::std_specs::convert::FromSpecImpl<Variable> for NamedNodePattern {
    open spec fn obeys_from_spec() -> bool {
        true
    }

    open spec fn from_spec(variable: Variable) -> Self {
        NamedNodePattern::Variable(variable)
    }
}

impl From<NamedNode> for GroundTermPattern {
    fn from(node: NamedNode) -> (r: Self) {
        GroundTermPattern::NamedNode(node)
    }
}

impl vstd::std_specs::convert::FromSpecImpl<NamedNode> for GroundTermPattern {
    open spec fn obeys_from_spec() -> bool {
        true
    }

    open spec fn from_spec(node: NamedNode) -> Self {
        GroundTermPattern::NamedNode(node)
    }
}

impl From<Literal> for GroundTermPattern {
    fn from(literal: Literal) -> (r: Self) {
        GroundTermPattern::Literal(literal)
    }
}

impl vstd::std_specs::convert::FromSpecImpl<Literal> for GroundTermPattern {
    open spec fn obeys_from_spec() -> bool {
        true
    }

    open spec fn from_spec(literal: Literal) -> Self {
        GroundTermPattern::Literal(literal)
    }
}

impl From<Variable> for GroundTermPattern {
    fn from(variable: Variable) -> (r: Self) {
        GroundTermPattern::Variable(variable)
    }
}

impl vstd::std_specs::convert::FromSpecImpl<Variable> for GroundTermPattern {
    open spec fn obeys_from_spec() -> bool {
        true
    }

    open spec fn from_spec(variable: Variable) -> Self {
        GroundTermPattern::Variable(variable)
    }
}

} // verus!
