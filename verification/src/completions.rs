//! Which variables to offer at a cursor in a message.
use vstd::prelude::*;
use vstd::string::StringExecFns;

use crate::ast::AnyNode;
use crate::ast::FnOrMarkupOption;
use crate::ast::Literal;
use crate::ast::LiteralExpression;
use crate::ast::LiteralOrVariable;
use crate::ast::Message;
use crate::ast::Text;
use crate::ast::Variable;
use crate::ast_utils::cursor_context;
use crate::ast_utils::find_node_at_cursor_with_context;
use crate::ast_utils::message_nodes;
use crate::ast_utils::nodes_fit;
use crate::ast_utils::Nodes;
use crate::scope::Scope;
use crate::strings::push_char;
use crate::strings::char_len_utf8;
use crate::strings::chars_of;
use crate::strings::str_eq;
use crate::strings::utf8_len;
use crate::strings::utf8_width;
use crate::text::Location;
use crate::text::Span;
use crate::text::Spanned;

verus! {

#[derive(Debug)]
pub enum CompletionAction {
    Insert,
    Replace(Span),
}

#[derive(Debug)]
pub struct Completion {
    pub text: String,
    pub action: CompletionAction,
}

/// What may be completed at a cursor: nothing, or a variable, possibly in
/// place of the variable at the cursor (its span and name).
#[derive(Debug)]
pub enum AllowedCompletionType<'text> {
    Nothing,
    Variable(Option<(Span, &'text str)>),
}

/// What may be completed, as a value: `None` for nothing, else the span
/// and name of the variable to replace, if any.
pub type CompletionTypeModel = Option<Option<(Span, Seq<char>)>>;

/// A completion as a value: its text, and the span it replaces, if any.
pub type CompletionModel = (Seq<char>, Option<Span>);

impl CompletionAction {
    pub open spec fn model(&self) -> Option<Span> {
        match self {
            CompletionAction::Insert => None,
            CompletionAction::Replace(span) => Some(*span),
        }
    }
}

impl Completion {
    pub open spec fn model(&self) -> CompletionModel {
        (self.text@, self.action.model())
    }
}

/// The completions, as values.
pub open spec fn completion_models(v: Seq<Completion>) -> Seq<CompletionModel> {
    v.map_values(|c: Completion| c.model())
}

impl<'text> AllowedCompletionType<'text> {
    pub open spec fn model(&self) -> CompletionTypeModel {
        match self {
            AllowedCompletionType::Nothing => None,
            AllowedCompletionType::Variable(None) => Some(None),
            AllowedCompletionType::Variable(Some((span, name))) => Some(Some((*span, name@))),
        }
    }
}

/// The last variable among the nodes.
pub open spec fn last_variable<'ast, 'text>(ns: Nodes<'ast, 'text>) -> Option<Variable<'text>>
    decreases ns.len(),
{
    if ns.len() == 0 {
        None
    } else {
        match ns.last() {
            AnyNode::Variable(v) => Some(*v),
            _ => last_variable(ns.drop_last()),
        }
    }
}

/// The last literal expression among the nodes.
pub open spec fn last_literal_expression<'ast, 'text>(ns: Nodes<'ast, 'text>) -> Option<
    &'ast LiteralExpression<'text>,
>
    decreases ns.len(),
{
    if ns.len() == 0 {
        None
    } else {
        match ns.last() {
            AnyNode::LiteralExpression(e) => Some(e),
            _ => last_literal_expression(ns.drop_last()),
        }
    }
}

/// The last option among the nodes whose value is a text, with that text.
pub open spec fn last_text_option<'ast, 'text>(ns: Nodes<'ast, 'text>) -> Option<
    (&'ast FnOrMarkupOption<'text>, Text<'text>),
>
    decreases ns.len(),
{
    if ns.len() == 0 {
        None
    } else {
        match ns.last() {
            AnyNode::FnOrMarkupOption(o) => match o.value {
                LiteralOrVariable::Literal(Literal::Text(t)) => Some((o, t)),
                _ => last_text_option(ns.drop_last()),
            },
            _ => last_text_option(ns.drop_last()),
        }
    }
}

/// Whether some node among the nodes is an identifier.
pub open spec fn has_identifier(ns: Nodes) -> bool {
    exists|i: int| 0 <= i < ns.len() && #[trigger] ns[i] is Identifier
}

/// Whether some node among the nodes is an expression.
pub open spec fn has_expression(ns: Nodes) -> bool {
    exists|i: int|
        0 <= i < ns.len() && (#[trigger] ns[i] is VariableExpression || ns[i] is AnnotationExpression
            || ns[i] is LiteralExpression)
}

/// Whether some node among the nodes is an annotation expression.
pub open spec fn has_annotation_expression(ns: Nodes) -> bool {
    exists|i: int| 0 <= i < ns.len() && #[trigger] ns[i] is AnnotationExpression
}

/// Whether some node among the nodes is an annotation.
pub open spec fn has_annotation(ns: Nodes) -> bool {
    exists|i: int| 0 <= i < ns.len() && #[trigger] ns[i] is Annotation
}

/// What may be completed at `loc`, given the nodes that contain it and the
/// nodes just before it: the variable at the cursor; a variable in an empty
/// placeholder; a variable as the missing value of an option (right after
/// its `=`, or after spaces that follow it); or a variable before the
/// annotation of a placeholder that has nothing else.
pub open spec fn completion_type(c: Nodes, p: Nodes, loc: Location) -> CompletionTypeModel {
    if last_variable(c) is Some {
        let v = last_variable(c)->0;
        Some(Some((v.span, v.name@)))
    } else if last_literal_expression(c) is Some && {
        let sp = last_literal_expression(c)->0.literal.spec_span();
        sp.start == sp.end
    } {
        Some(None)
    } else if last_text_option(c) is Some && has_identifier(p) && {
        let t = (last_text_option(c)->0).1;
        t.spec_span().start == t.spec_span().end && t.start.byte() <= loc.byte()
    } {
        Some(None)
    } else if has_expression(c) && last_text_option(p) is Some && {
        let (o, t) = last_text_option(p)->0;
        t.spec_span().start == t.spec_span().end && o.key.spec_span().end != t.spec_span().start
    } {
        Some(None)
    } else if has_annotation_expression(c) && p.len() == 0 && !has_annotation(c) {
        Some(None)
    } else {
        None
    }
}

/// The names of `names`, in order, without `name` unless `include_self`.
pub open spec fn offered_names(names: Seq<Seq<char>>, name: Seq<char>, include_self: bool) -> Seq<
    Seq<char>,
>
    decreases names.len(),
{
    if names.len() == 0 {
        seq![]
    } else {
        let rest = offered_names(names.drop_last(), name, include_self);
        if include_self || names.last() != name {
            rest.push(names.last())
        } else {
            rest
        }
    }
}

/// Each name as a variable reference, with the span it replaces, if any.
pub open spec fn variable_completions(names: Seq<Seq<char>>, action: Option<Span>) -> Seq<
    CompletionModel,
> {
    names.map_values(|n: Seq<char>| (seq!['$'] + n, action))
}

/// The names of the variables of a scope, in the order of the scope.
pub open spec fn scope_names(scope: Scope) -> Seq<Seq<char>> {
    scope.entries().map_values(|e: (Seq<char>, Option<Span>, Seq<Span>)| e.0)
}

/// Whether the variable at the cursor is offered as well: its name is longer
/// than one byte and it occurs more than once.
pub open spec fn offers_self(scope: Scope, name: Seq<char>) -> bool {
    utf8_len(name) > 1 && (scope.usage(name)->0).1.len() > 1
}

/// The completions offered for `allowed` from the variables of `scope`:
/// none; every variable, to insert; or every variable but the one at the
/// cursor (that one too where `offers_self`), in place of it.
pub open spec fn expected_completions(scope: Scope, allowed: CompletionTypeModel) -> Seq<
    CompletionModel,
> {
    match allowed {
        None => seq![],
        Some(None) => variable_completions(scope_names(scope), None),
        Some(Some((span, name))) => variable_completions(
            offered_names(scope_names(scope), name, offers_self(scope, name)),
            Some(span),
        ),
    }
}

/// Every node of a cursor context fits, where the nodes met do.
pub proof fn lemma_context_fits<'ast, 'text>(ns: Nodes<'ast, 'text>, loc: Location)
    requires
        nodes_fit(ns),
    ensures
        nodes_fit(cursor_context(ns, loc).0),
        nodes_fit(cursor_context(ns, loc).1),
    decreases ns.len(),
{
    if ns.len() > 0 {
        let rest = ns.drop_last();
        assert(nodes_fit(rest)) by {
            assert forall|i: int| 0 <= i < rest.len() implies #[trigger] rest[i].fits() by {
                assert(rest[i] == ns[i]);
            }
        }
        lemma_context_fits(rest, loc);
        assert(ns.last().fits()) by {
            assert(ns[ns.len() - 1].fits());
        }
    }
}

/// The last variable among the nodes.
fn find_last_variable<'ast, 'text>(c: &Vec<AnyNode<'ast, 'text>>) -> (r: Option<&'ast Variable<'text>>)
    ensures
        r is Some == last_variable(c@) is Some,
        r matches Some(v) ==> last_variable(c@) == Some(*v),
{
    let mut i: usize = c.len();
    assert(c@.take(i as int) =~= c@);
    while i > 0
        invariant
            i <= c.len(),
            last_variable(c@) == last_variable(c@.take(i as int)),
        decreases i,
    {
        assert(c@.take(i as int).drop_last() =~= c@.take(i - 1));
        if let AnyNode::Variable(v) = c[i - 1] {
            return Some(v);
        }
        i = i - 1;
    }
    None
}

/// The last literal expression among the nodes.
fn find_last_literal_expression<'ast, 'text>(c: &Vec<AnyNode<'ast, 'text>>) -> (r: Option<
    &'ast LiteralExpression<'text>,
>)
    requires
        nodes_fit(c@),
    ensures
        r == last_literal_expression(c@),
        r matches Some(e) ==> e.fits(),
{
    let mut i: usize = c.len();
    assert(c@.take(i as int) =~= c@);
    while i > 0
        invariant
            i <= c.len(),
            nodes_fit(c@),
            last_literal_expression(c@) == last_literal_expression(c@.take(i as int)),
        decreases i,
    {
        assert(c@.take(i as int).drop_last() =~= c@.take(i - 1));
        assert(c@[i - 1].fits());
        if let AnyNode::LiteralExpression(e) = c[i - 1] {
            return Some(e);
        }
        i = i - 1;
    }
    None
}

/// The last option among the nodes whose value is a text, with that text.
fn find_last_text_option<'ast, 'text>(c: &Vec<AnyNode<'ast, 'text>>) -> (r: Option<
    (&'ast FnOrMarkupOption<'text>, &'ast Text<'text>),
>)
    requires
        nodes_fit(c@),
    ensures
        r is Some == last_text_option(c@) is Some,
        r matches Some((o, t)) ==> last_text_option(c@) == Some((o, *t)) && o.fits() && t.fits(),
{
    let mut i: usize = c.len();
    assert(c@.take(i as int) =~= c@);
    while i > 0
        invariant
            i <= c.len(),
            nodes_fit(c@),
            last_text_option(c@) == last_text_option(c@.take(i as int)),
        decreases i,
    {
        assert(c@.take(i as int).drop_last() =~= c@.take(i - 1));
        assert(c@[i - 1].fits());
        if let AnyNode::FnOrMarkupOption(o) = c[i - 1] {
            if let LiteralOrVariable::Literal(Literal::Text(t)) = &o.value {
                return Some((o, t));
            }
        }
        i = i - 1;
    }
    None
}

/// Whether some node among the nodes is an identifier.
fn contains_identifier(c: &Vec<AnyNode>) -> (r: bool)
    ensures
        r == has_identifier(c@),
{
    let mut i: usize = 0;
    while i < c.len()
        invariant
            i <= c.len(),
            forall|k: int| 0 <= k < i ==> !(#[trigger] c@[k] is Identifier),
        decreases c.len() - i,
    {
        if let AnyNode::Identifier(_) = c[i] {
            return true;
        }
        i = i + 1;
    }
    false
}

/// Whether some node among the nodes is an expression.
fn contains_expression(c: &Vec<AnyNode>) -> (r: bool)
    ensures
        r == has_expression(c@),
{
    let mut i: usize = 0;
    while i < c.len()
        invariant
            i <= c.len(),
            forall|k: int|
                0 <= k < i ==> !(#[trigger] c@[k] is VariableExpression || c@[k] is AnnotationExpression
                    || c@[k] is LiteralExpression),
        decreases c.len() - i,
    {
        match c[i] {
            AnyNode::VariableExpression(_) => return true,
            AnyNode::AnnotationExpression(_) => return true,
            AnyNode::LiteralExpression(_) => return true,
            _ => {},
        }
        i = i + 1;
    }
    false
}

/// Whether some node among the nodes is an annotation expression.
fn contains_annotation_expression(c: &Vec<AnyNode>) -> (r: bool)
    ensures
        r == has_annotation_expression(c@),
{
    let mut i: usize = 0;
    while i < c.len()
        invariant
            i <= c.len(),
            forall|k: int| 0 <= k < i ==> !(#[trigger] c@[k] is AnnotationExpression),
        decreases c.len() - i,
    {
        if let AnyNode::AnnotationExpression(_) = c[i] {
            return true;
        }
        i = i + 1;
    }
    false
}

/// Whether some node among the nodes is an annotation.
fn contains_annotation(c: &Vec<AnyNode>) -> (r: bool)
    ensures
        r == has_annotation(c@),
{
    let mut i: usize = 0;
    while i < c.len()
        invariant
            i <= c.len(),
            forall|k: int| 0 <= k < i ==> !(#[trigger] c@[k] is Annotation),
        decreases c.len() - i,
    {
        if let AnyNode::Annotation(_) = c[i] {
            return true;
        }
        i = i + 1;
    }
    false
}

/// What may be completed at `loc` in `ast`: see `completion_type`.
pub fn get_completion_type<'ast, 'text>(ast: &'ast Message<'text>, loc: Location) -> (r:
    AllowedCompletionType<'text>)
    requires
        nodes_fit(message_nodes(ast)),
    ensures
        r.model() == completion_type(
            cursor_context(message_nodes(ast), loc).0,
            cursor_context(message_nodes(ast), loc).1,
            loc,
        ),
{
    let context = find_node_at_cursor_with_context(ast, loc);
    proof {
        lemma_context_fits(message_nodes(ast), loc);
    }
    let containing = &context.containing_nodes;
    let previous = &context.greatest_previous_nodes;
    if let Some(v) = find_last_variable(containing) {
        // `$f|` or `$|`: the variable at the cursor.
        return AllowedCompletionType::Variable(Some((v.span(), v.name)));
    }
    if let Some(e) = find_last_literal_expression(containing) {
        if e.literal.span().is_empty() {
            // `{ | }`: the empty literal is all the placeholder holds.
            return AllowedCompletionType::Variable(None);
        }
    }
    if let Some((_, text)) = find_last_text_option(containing) {
        if contains_identifier(previous) {
            let span = text.span();
            if span.is_empty() && span.start.0 <= loc.0 {
                // `:fn param=|`
                return AllowedCompletionType::Variable(None);
            }
        }
    }
    if contains_expression(containing) {
        if let Some((option, text)) = find_last_text_option(previous) {
            let span = text.span();
            if span.is_empty() && option.key.span().end.0 != span.start.0 {
                // `{ $a :fn param= | }`
                return AllowedCompletionType::Variable(None);
            }
        }
    }
    if contains_annotation_expression(containing) && previous.len() == 0 && !contains_annotation(
        containing,
    ) {
        // `{ | :fn }`, or `{ :fn asd=| }`
        return AllowedCompletionType::Variable(None);
    }
    AllowedCompletionType::Nothing
}

/// Whether `name` takes more than one byte in UTF-8 (`name.len() > 1`).
fn longer_than_one_byte(name: &str) -> (r: bool)
    ensures
        r == (utf8_len(name@) > 1),
{
    let cs = chars_of(name);
    if cs.len() == 0 {
        false
    } else if cs.len() == 1 {
        assert(utf8_len(name@.drop_first()) == 0);
        char_len_utf8(cs[0]) > 1
    } else {
        let ghost rest = name@.drop_first();
        assert(utf8_len(rest) >= 1) by {
            assert(rest.len() > 0);
            assert(utf8_width(rest[0]) >= 1);
        }
        true
    }
}

/// `"$"` followed by `name`.
fn variable_text(name: &str) -> (r: String)
    ensures
        r@ == seq!['$'] + name@,
{
    let mut text = String::new();
    push_char(&mut text, '$');
    text.append(name);
    text
}

/// Offers the variables of a scope at a cursor in a message.
pub struct CompletionsProvider<'scope, 'text> {
    scope: &'scope Scope<'text>,
    completion_type: AllowedCompletionType<'text>,
}

impl<'scope, 'text> CompletionsProvider<'scope, 'text> {
    /// The scope whose variables are offered.
    pub closed spec fn scope(&self) -> Scope<'text> {
        *self.scope
    }

    /// What may be completed at the cursor.
    pub closed spec fn allowed(&self) -> CompletionTypeModel {
        self.completion_type.model()
    }

    /// A provider for a cursor at `loc` in `ast`, offering the variables of
    /// `scope`.
    pub fn new<'ast>(ast: &'ast Message<'text>, loc: Location, scope: &'scope Scope<'text>) -> (r:
        Self)
        requires
            nodes_fit(message_nodes(ast)),
        ensures
            r.scope() == *scope,
            r.allowed() == completion_type(
                cursor_context(message_nodes(ast), loc).0,
                cursor_context(message_nodes(ast), loc).1,
                loc,
            ),
    {
        CompletionsProvider { scope, completion_type: get_completion_type(ast, loc) }
    }

    /// Whether anything may be completed at the cursor.
    pub fn has_completions(&self) -> (r: bool)
        ensures
            r == self.allowed() is Some,
    {
        match self.completion_type {
            AllowedCompletionType::Nothing => false,
            AllowedCompletionType::Variable(_) => true,
        }
    }

    /// The completions at the cursor: see `expected_completions`.
    pub fn get_completions(&self) -> (r: Vec<Completion>)
        requires
            self.scope().wf(),
            self.allowed() matches Some(Some((_, name))) ==> self.scope().usage(name) is Some,
        ensures
            completion_models(r@) == expected_completions(self.scope(), self.allowed()),
    {
        match self.completion_type {
            AllowedCompletionType::Nothing => {
                let r: Vec<Completion> = Vec::new();
                assert(completion_models(r@) =~= seq![]);
                r
            },
            AllowedCompletionType::Variable(None) => {
                let names = self.scope.get_names();
                let mut r: Vec<Completion> = Vec::new();
                let ghost all = scope_names(*self.scope);
                let mut k: usize = 0;
                while k < names.len()
                    invariant
                        k <= names.len(),
                        names.len() == all.len(),
                        all == scope_names(*self.scope),
                        forall|i: int| 0 <= i < names.len() ==> #[trigger] names[i]@ == all[i],
                        completion_models(r@) == variable_completions(all.take(k as int), None),
                    decreases names.len() - k,
                {
                    let ghost before = r@;
                    let text = variable_text(names[k]);
                    let c = Completion { text, action: CompletionAction::Insert };
                    assert(c.model() == (seq!['$'] + all[k as int], None::<Span>));
                    r.push(c);
                    assert(r@ == before.push(c));
                    assert(completion_models(r@) =~= completion_models(before).push(c.model()));
                    assert(completion_models(r@) =~= variable_completions(all.take(k + 1), None));
                    k = k + 1;
                }
                assert(all.take(names.len() as int) =~= all);
                r
            },
            AllowedCompletionType::Variable(Some((span, name))) => {
                let spans = self.scope.get_spans(name);
                let include_self = match spans {
                    Some(all_spans) => longer_than_one_byte(name) && all_spans.len() > 1,
                    None => false,
                };
                let names = self.scope.get_names();
                let ghost all = scope_names(*self.scope);
                let mut r: Vec<Completion> = Vec::new();
                let mut k: usize = 0;
                while k < names.len()
                    invariant
                        k <= names.len(),
                        names.len() == all.len(),
                        all == scope_names(*self.scope),
                        forall|i: int| 0 <= i < names.len() ==> #[trigger] names[i]@ == all[i],
                        completion_models(r@) == variable_completions(
                            offered_names(all.take(k as int), name@, include_self),
                            Some(span),
                        ),
                    decreases names.len() - k,
                {
                    assert(all.take(k + 1).drop_last() =~= all.take(k as int));
                    let ghost before = r@;
                    if include_self || !str_eq(names[k], name) {
                        let text = variable_text(names[k]);
                        let c = Completion { text, action: CompletionAction::Replace(span) };
                        assert(c.model() == (seq!['$'] + all[k as int], Some(span)));
                        r.push(c);
                        assert(r@ == before.push(c));
                        assert(completion_models(r@) =~= completion_models(before).push(c.model()));
                    }
                    assert(completion_models(r@) =~= variable_completions(
                        offered_names(all.take(k + 1), name@, include_self),
                        Some(span),
                    ));
                    k = k + 1;
                }
                assert(all.take(names.len() as int) =~= all);
                r
            },
        }
    }
}

} // verus!
