//! Finding the nodes of a syntax tree around a location.
use vstd::prelude::*;

use crate::ast::Annotation;
use crate::ast::AnyNode;
use crate::ast::Attribute;
use crate::ast::ComplexMessage;
use crate::ast::ComplexMessageBody;
use crate::ast::Declaration;
use crate::ast::Expression;
use crate::ast::FnOrMarkupOption;
use crate::ast::Key;
use crate::ast::Literal;
use crate::ast::LiteralExpression;
use crate::ast::LiteralOrVariable;
use crate::ast::AnnotationExpression;
use crate::ast::Markup;
use crate::ast::Matcher;
use crate::ast::Message;
use crate::ast::Pattern;
use crate::ast::PatternPart;
use crate::ast::Quoted;
use crate::ast::QuotedPart;
use crate::ast::QuotedPattern;
use crate::ast::Variable;
use crate::ast::VariableExpression;
use crate::ast::Variant;
use crate::text::Location;
use crate::text::Spanned;

verus! {

/// The nodes of a tree, in the order in which a visit of it meets them.
pub type Nodes<'ast, 'text> = Seq<AnyNode<'ast, 'text>>;

pub open spec fn quoted_part_n<'ast, 'text>(x: &'ast QuotedPart<'text>) -> Nodes<'ast, 'text> {
    match x {
        QuotedPart::Text(t) => seq![AnyNode::Text(t)],
        QuotedPart::Escape(e) => seq![AnyNode::Escape(e)],
    }
}

pub open spec fn quoted_n<'ast, 'text>(x: &'ast Quoted<'text>) -> Nodes<'ast, 'text> {
    seq![AnyNode::Quoted(x)] + quoted_parts_n(&x.parts, x.parts.len() as int)
}

pub open spec fn literal_n<'ast, 'text>(x: &'ast Literal<'text>) -> Nodes<'ast, 'text> {
    match x {
        Literal::Quoted(q) => quoted_n(q),
        Literal::Text(t) => seq![AnyNode::Text(t)],
        Literal::Number(n) => seq![AnyNode::Number(n)],
    }
}

pub open spec fn variable_n<'ast, 'text>(x: &'ast Variable<'text>) -> Nodes<'ast, 'text> {
    seq![AnyNode::Variable(x)]
}

pub open spec fn lov_n<'ast, 'text>(x: &'ast LiteralOrVariable<'text>) -> Nodes<'ast, 'text> {
    match x {
        LiteralOrVariable::Literal(l) => literal_n(l),
        LiteralOrVariable::Variable(v) => seq![AnyNode::Variable(v)],
    }
}

pub open spec fn option_n<'ast, 'text>(x: &'ast FnOrMarkupOption<'text>) -> Nodes<'ast, 'text> {
    seq![AnyNode::FnOrMarkupOption(x), AnyNode::Identifier(&x.key)] + lov_n(&x.value)
}

pub open spec fn annotation_n<'ast, 'text>(x: &'ast Annotation<'text>) -> Nodes<'ast, 'text> {
    match x {
        Annotation::Function(f) => seq![AnyNode::Annotation(x), AnyNode::Identifier(&f.id)]
            + options_n(&f.options, f.options.len() as int),
    }
}

pub open spec fn attribute_n<'ast, 'text>(x: &'ast Attribute<'text>) -> Nodes<'ast, 'text> {
    seq![AnyNode::Attribute(x), AnyNode::Identifier(&x.key)] + match &x.value {
        Some(l) => literal_n(l),
        None => seq![],
    }
}

pub open spec fn literal_expression_n<'ast, 'text>(x: &'ast LiteralExpression<'text>) -> Nodes<'ast, 'text> {
    seq![AnyNode::LiteralExpression(x)] + literal_n(&x.literal) + opt_annotation_n(
        &x.annotation,
    ) + attributes_n(&x.attributes, x.attributes.len() as int)
}

pub open spec fn variable_expression_n<'ast, 'text>(x: &'ast VariableExpression<'text>) -> Nodes<'ast, 'text> {
    seq![AnyNode::VariableExpression(x), AnyNode::Variable(&x.variable)] + opt_annotation_n(
        &x.annotation,
    ) + attributes_n(&x.attributes, x.attributes.len() as int)
}

pub open spec fn annotation_expression_n<'ast, 'text>(x: &'ast AnnotationExpression<'text>) -> Nodes<'ast, 'text> {
    seq![AnyNode::AnnotationExpression(x)] + annotation_n(&x.annotation) + attributes_n(
        &x.attributes,
        x.attributes.len() as int,
    )
}

pub open spec fn expression_n<'ast, 'text>(x: &'ast Expression<'text>) -> Nodes<'ast, 'text> {
    match x {
        Expression::LiteralExpression(e) => literal_expression_n(e),
        Expression::VariableExpression(e) => variable_expression_n(e),
        Expression::AnnotationExpression(e) => annotation_expression_n(e),
    }
}

pub open spec fn markup_n<'ast, 'text>(x: &'ast Markup<'text>) -> Nodes<'ast, 'text> {
    seq![AnyNode::Markup(x), AnyNode::Identifier(&x.id)] + options_n(
        &x.options,
        x.options.len() as int,
    ) + attributes_n(&x.attributes, x.attributes.len() as int)
}

pub open spec fn part_n<'ast, 'text>(x: &'ast PatternPart<'text>) -> Nodes<'ast, 'text> {
    match x {
        PatternPart::Text(t) => seq![AnyNode::Text(t)],
        PatternPart::Escape(e) => seq![AnyNode::Escape(e)],
        PatternPart::Expression(e) => expression_n(e),
        PatternPart::Markup(m) => markup_n(m),
    }
}

pub open spec fn pattern_n<'ast, 'text>(x: &'ast Pattern<'text>) -> Nodes<'ast, 'text> {
    seq![AnyNode::Pattern(x)] + parts_n(&x.parts, x.parts.len() as int)
}

pub open spec fn quoted_pattern_n<'ast, 'text>(x: &'ast QuotedPattern<'text>) -> Nodes<'ast, 'text> {
    seq![AnyNode::QuotedPattern(x)] + pattern_n(&x.pattern)
}

pub open spec fn key_n<'ast, 'text>(x: &'ast Key<'text>) -> Nodes<'ast, 'text> {
    match x {
        Key::Literal(l) => literal_n(l),
        Key::Star(s) => seq![AnyNode::Star(s)],
    }
}

pub open spec fn variant_n<'ast, 'text>(x: &'ast Variant<'text>) -> Nodes<'ast, 'text> {
    seq![AnyNode::Variant(x)] + keys_n(&x.keys, x.keys.len() as int) + quoted_pattern_n(
        &x.pattern,
    )
}

pub open spec fn matcher_n<'ast, 'text>(x: &'ast Matcher<'text>) -> Nodes<'ast, 'text> {
    seq![AnyNode::Matcher(x)] + selectors_n(&x.selectors, x.selectors.len() as int)
        + variants_n(&x.variants, x.variants.len() as int)
}

pub open spec fn declaration_n<'ast, 'text>(x: &'ast Declaration<'text>) -> Nodes<'ast, 'text> {
    match x {
        Declaration::InputDeclaration(d) => seq![AnyNode::InputDeclaration(d)] + variable_expression_n(
            &d.expression,
        ),
        Declaration::LocalDeclaration(d) => seq![
            AnyNode::LocalDeclaration(d),
            AnyNode::Variable(&d.variable),
        ] + expression_n(&d.expression),
    }
}

pub open spec fn body_n<'ast, 'text>(x: &'ast ComplexMessageBody<'text>) -> Nodes<'ast, 'text> {
    match x {
        ComplexMessageBody::QuotedPattern(q) => quoted_pattern_n(q),
        ComplexMessageBody::Matcher(m) => matcher_n(m),
    }
}

pub open spec fn complex_n<'ast, 'text>(x: &'ast ComplexMessage<'text>) -> Nodes<'ast, 'text> {
    seq![AnyNode::ComplexMessage(x)] + declarations_n(
        &x.declarations,
        x.declarations.len() as int,
    ) + body_n(&x.body)
}

pub open spec fn message_nodes<'ast, 'text>(x: &'ast Message<'text>) -> Nodes<'ast, 'text> {
    match x {
        Message::Simple(p) => pattern_n(p),
        Message::Complex(c) => complex_n(c),
    }
}

pub open spec fn opt_annotation_n<'ast, 'text>(x: &'ast Option<Annotation<'text>>) -> Nodes<'ast, 'text> {
    match x {
        Some(a) => annotation_n(a),
        None => seq![],
    }
}

pub open spec fn quoted_parts_n<'ast, 'text>(v: &'ast Vec<QuotedPart<'text>>, n: int) -> Nodes<'ast, 'text>
    decreases n,
{
    if n <= 0 || n > v.len() {
        seq![]
    } else {
        quoted_parts_n(v, n - 1) + quoted_part_n(&v[n - 1])
    }
}

pub open spec fn options_n<'ast, 'text>(v: &'ast Vec<FnOrMarkupOption<'text>>, n: int) -> Nodes<'ast, 'text>
    decreases n,
{
    if n <= 0 || n > v.len() {
        seq![]
    } else {
        options_n(v, n - 1) + option_n(&v[n - 1])
    }
}

pub open spec fn attributes_n<'ast, 'text>(v: &'ast Vec<Attribute<'text>>, n: int) -> Nodes<'ast, 'text>
    decreases n,
{
    if n <= 0 || n > v.len() {
        seq![]
    } else {
        attributes_n(v, n - 1) + attribute_n(&v[n - 1])
    }
}

pub open spec fn parts_n<'ast, 'text>(v: &'ast Vec<PatternPart<'text>>, n: int) -> Nodes<'ast, 'text>
    decreases n,
{
    if n <= 0 || n > v.len() {
        seq![]
    } else {
        parts_n(v, n - 1) + part_n(&v[n - 1])
    }
}

pub open spec fn keys_n<'ast, 'text>(v: &'ast Vec<Key<'text>>, n: int) -> Nodes<'ast, 'text>
    decreases n,
{
    if n <= 0 || n > v.len() {
        seq![]
    } else {
        keys_n(v, n - 1) + key_n(&v[n - 1])
    }
}

pub open spec fn variants_n<'ast, 'text>(v: &'ast Vec<Variant<'text>>, n: int) -> Nodes<'ast, 'text>
    decreases n,
{
    if n <= 0 || n > v.len() {
        seq![]
    } else {
        variants_n(v, n - 1) + variant_n(&v[n - 1])
    }
}

pub open spec fn selectors_n<'ast, 'text>(v: &'ast Vec<Variable<'text>>, n: int) -> Nodes<'ast, 'text>
    decreases n,
{
    if n <= 0 || n > v.len() {
        seq![]
    } else {
        selectors_n(v, n - 1) + variable_n(&v[n - 1])
    }
}

pub open spec fn declarations_n<'ast, 'text>(v: &'ast Vec<Declaration<'text>>, n: int) -> Nodes<'ast, 'text>
    decreases n,
{
    if n <= 0 || n > v.len() {
        seq![]
    } else {
        declarations_n(v, n - 1) + declaration_n(&v[n - 1])
    }
}

fn push_quoted_part_n<'ast, 'text>(out: &mut Vec<AnyNode<'ast, 'text>>, x: &'ast QuotedPart<'text>)
    ensures
        final(out)@ == old(out)@ + quoted_part_n(x),
{
    let ghost o = out@;
    match x {
        QuotedPart::Text(t) => out.push(AnyNode::Text(t)),
        QuotedPart::Escape(e) => out.push(AnyNode::Escape(e)),
    }
    assert(out@ =~= o + quoted_part_n(x));
}

fn push_quoted_n<'ast, 'text>(out: &mut Vec<AnyNode<'ast, 'text>>, x: &'ast Quoted<'text>)
    ensures
        final(out)@ == old(out)@ + quoted_n(x),
{
    let ghost o = out@;
    out.push(AnyNode::Quoted(x));
    push_quoted_parts_n(out, &x.parts);
    assert(out@ =~= o + quoted_n(x));
}

fn push_literal_n<'ast, 'text>(out: &mut Vec<AnyNode<'ast, 'text>>, x: &'ast Literal<'text>)
    ensures
        final(out)@ == old(out)@ + literal_n(x),
{
    let ghost o = out@;
    match x {
        Literal::Quoted(q) => push_quoted_n(out, q),
        Literal::Text(t) => out.push(AnyNode::Text(t)),
        Literal::Number(n) => out.push(AnyNode::Number(n)),
    }
    assert(out@ =~= o + literal_n(x));
}

fn push_lov_n<'ast, 'text>(out: &mut Vec<AnyNode<'ast, 'text>>, x: &'ast LiteralOrVariable<'text>)
    ensures
        final(out)@ == old(out)@ + lov_n(x),
{
    let ghost o = out@;
    match x {
        LiteralOrVariable::Literal(l) => push_literal_n(out, l),
        LiteralOrVariable::Variable(v) => out.push(AnyNode::Variable(v)),
    }
    assert(out@ =~= o + lov_n(x));
}

fn push_option_n<'ast, 'text>(out: &mut Vec<AnyNode<'ast, 'text>>, x: &'ast FnOrMarkupOption<'text>)
    ensures
        final(out)@ == old(out)@ + option_n(x),
{
    let ghost o = out@;
    out.push(AnyNode::FnOrMarkupOption(x));
    out.push(AnyNode::Identifier(&x.key));
    push_lov_n(out, &x.value);
    assert(out@ =~= o + option_n(x));
}

fn push_annotation_n<'ast, 'text>(out: &mut Vec<AnyNode<'ast, 'text>>, x: &'ast Annotation<'text>)
    ensures
        final(out)@ == old(out)@ + annotation_n(x),
{
    let ghost o = out@;
    match x {
        Annotation::Function(f) => {
            out.push(AnyNode::Annotation(x));
            out.push(AnyNode::Identifier(&f.id));
            push_options_n(out, &f.options);
        },
    }
    assert(out@ =~= o + annotation_n(x));
}

fn push_opt_annotation_n<'ast, 'text>(out: &mut Vec<AnyNode<'ast, 'text>>, x: &'ast Option<Annotation<'text>>)
    ensures
        final(out)@ == old(out)@ + opt_annotation_n(x),
{
    let ghost o = out@;
    match x {
        Some(a) => push_annotation_n(out, a),
        None => {},
    }
    assert(out@ =~= o + opt_annotation_n(x));
}

fn push_attribute_n<'ast, 'text>(out: &mut Vec<AnyNode<'ast, 'text>>, x: &'ast Attribute<'text>)
    ensures
        final(out)@ == old(out)@ + attribute_n(x),
{
    let ghost o = out@;
    out.push(AnyNode::Attribute(x));
    out.push(AnyNode::Identifier(&x.key));
    match &x.value {
        Some(l) => push_literal_n(out, l),
        None => {},
    }
    assert(out@ =~= o + attribute_n(x));
}

fn push_literal_expression_n<'ast, 'text>(out: &mut Vec<AnyNode<'ast, 'text>>, x: &'ast LiteralExpression<'text>)
    ensures
        final(out)@ == old(out)@ + literal_expression_n(x),
{
    let ghost o = out@;
    out.push(AnyNode::LiteralExpression(x));
    push_literal_n(out, &x.literal);
    push_opt_annotation_n(out, &x.annotation);
    push_attributes_n(out, &x.attributes);
    assert(out@ =~= o + literal_expression_n(x));
}

fn push_variable_expression_n<'ast, 'text>(out: &mut Vec<AnyNode<'ast, 'text>>, x: &'ast VariableExpression<'text>)
    ensures
        final(out)@ == old(out)@ + variable_expression_n(x),
{
    let ghost o = out@;
    out.push(AnyNode::VariableExpression(x));
    out.push(AnyNode::Variable(&x.variable));
    push_opt_annotation_n(out, &x.annotation);
    push_attributes_n(out, &x.attributes);
    assert(out@ =~= o + variable_expression_n(x));
}

fn push_annotation_expression_n<'ast, 'text>(out: &mut Vec<AnyNode<'ast, 'text>>, x: &'ast AnnotationExpression<'text>)
    ensures
        final(out)@ == old(out)@ + annotation_expression_n(x),
{
    let ghost o = out@;
    out.push(AnyNode::AnnotationExpression(x));
    push_annotation_n(out, &x.annotation);
    push_attributes_n(out, &x.attributes);
    assert(out@ =~= o + annotation_expression_n(x));
}

fn push_expression_n<'ast, 'text>(out: &mut Vec<AnyNode<'ast, 'text>>, x: &'ast Expression<'text>)
    ensures
        final(out)@ == old(out)@ + expression_n(x),
{
    let ghost o = out@;
    match x {
        Expression::LiteralExpression(e) => push_literal_expression_n(out, e),
        Expression::VariableExpression(e) => push_variable_expression_n(out, e),
        Expression::AnnotationExpression(e) => push_annotation_expression_n(out, e),
    }
    assert(out@ =~= o + expression_n(x));
}

fn push_markup_n<'ast, 'text>(out: &mut Vec<AnyNode<'ast, 'text>>, x: &'ast Markup<'text>)
    ensures
        final(out)@ == old(out)@ + markup_n(x),
{
    let ghost o = out@;
    out.push(AnyNode::Markup(x));
    out.push(AnyNode::Identifier(&x.id));
    push_options_n(out, &x.options);
    push_attributes_n(out, &x.attributes);
    assert(out@ =~= o + markup_n(x));
}

fn push_part_n<'ast, 'text>(out: &mut Vec<AnyNode<'ast, 'text>>, x: &'ast PatternPart<'text>)
    ensures
        final(out)@ == old(out)@ + part_n(x),
{
    let ghost o = out@;
    match x {
        PatternPart::Text(t) => out.push(AnyNode::Text(t)),
        PatternPart::Escape(e) => out.push(AnyNode::Escape(e)),
        PatternPart::Expression(e) => push_expression_n(out, e),
        PatternPart::Markup(m) => push_markup_n(out, m),
    }
    assert(out@ =~= o + part_n(x));
}

fn push_pattern_n<'ast, 'text>(out: &mut Vec<AnyNode<'ast, 'text>>, x: &'ast Pattern<'text>)
    ensures
        final(out)@ == old(out)@ + pattern_n(x),
{
    let ghost o = out@;
    out.push(AnyNode::Pattern(x));
    push_parts_n(out, &x.parts);
    assert(out@ =~= o + pattern_n(x));
}

fn push_quoted_pattern_n<'ast, 'text>(out: &mut Vec<AnyNode<'ast, 'text>>, x: &'ast QuotedPattern<'text>)
    ensures
        final(out)@ == old(out)@ + quoted_pattern_n(x),
{
    let ghost o = out@;
    out.push(AnyNode::QuotedPattern(x));
    push_pattern_n(out, &x.pattern);
    assert(out@ =~= o + quoted_pattern_n(x));
}

fn push_key_n<'ast, 'text>(out: &mut Vec<AnyNode<'ast, 'text>>, x: &'ast Key<'text>)
    ensures
        final(out)@ == old(out)@ + key_n(x),
{
    let ghost o = out@;
    match x {
        Key::Literal(l) => push_literal_n(out, l),
        Key::Star(s) => out.push(AnyNode::Star(s)),
    }
    assert(out@ =~= o + key_n(x));
}

fn push_variant_n<'ast, 'text>(out: &mut Vec<AnyNode<'ast, 'text>>, x: &'ast Variant<'text>)
    ensures
        final(out)@ == old(out)@ + variant_n(x),
{
    let ghost o = out@;
    out.push(AnyNode::Variant(x));
    push_keys_n(out, &x.keys);
    push_quoted_pattern_n(out, &x.pattern);
    assert(out@ =~= o + variant_n(x));
}

fn push_variable_n<'ast, 'text>(out: &mut Vec<AnyNode<'ast, 'text>>, x: &'ast Variable<'text>)
    ensures
        final(out)@ == old(out)@ + variable_n(x),
{
    let ghost o = out@;
    out.push(AnyNode::Variable(x));
    assert(out@ =~= o + variable_n(x));
}

fn push_matcher_n<'ast, 'text>(out: &mut Vec<AnyNode<'ast, 'text>>, x: &'ast Matcher<'text>)
    ensures
        final(out)@ == old(out)@ + matcher_n(x),
{
    let ghost o = out@;
    out.push(AnyNode::Matcher(x));
    push_selectors_n(out, &x.selectors);
    push_variants_n(out, &x.variants);
    assert(out@ =~= o + matcher_n(x));
}

fn push_declaration_n<'ast, 'text>(out: &mut Vec<AnyNode<'ast, 'text>>, x: &'ast Declaration<'text>)
    ensures
        final(out)@ == old(out)@ + declaration_n(x),
{
    let ghost o = out@;
    match x {
        Declaration::InputDeclaration(d) => {
            out.push(AnyNode::InputDeclaration(d));
            push_variable_expression_n(out, &d.expression);
        },
        Declaration::LocalDeclaration(d) => {
            out.push(AnyNode::LocalDeclaration(d));
            out.push(AnyNode::Variable(&d.variable));
            push_expression_n(out, &d.expression);
        },
    }
    assert(out@ =~= o + declaration_n(x));
}

fn push_body_n<'ast, 'text>(out: &mut Vec<AnyNode<'ast, 'text>>, x: &'ast ComplexMessageBody<'text>)
    ensures
        final(out)@ == old(out)@ + body_n(x),
{
    let ghost o = out@;
    match x {
        ComplexMessageBody::QuotedPattern(q) => push_quoted_pattern_n(out, q),
        ComplexMessageBody::Matcher(m) => push_matcher_n(out, m),
    }
    assert(out@ =~= o + body_n(x));
}

fn push_complex_n<'ast, 'text>(out: &mut Vec<AnyNode<'ast, 'text>>, x: &'ast ComplexMessage<'text>)
    ensures
        final(out)@ == old(out)@ + complex_n(x),
{
    let ghost o = out@;
    out.push(AnyNode::ComplexMessage(x));
    push_declarations_n(out, &x.declarations);
    push_body_n(out, &x.body);
    assert(out@ =~= o + complex_n(x));
}

fn push_quoted_parts_n<'ast, 'text>(out: &mut Vec<AnyNode<'ast, 'text>>, v: &'ast Vec<QuotedPart<'text>>)
    ensures
        final(out)@ == old(out)@ + quoted_parts_n(v, v.len() as int),
{
    let ghost o = out@;
    let mut i: usize = 0;
    while i < v.len()
        invariant
            i <= v.len(),
            out@ == o + quoted_parts_n(v, i as int),
        decreases v.len() - i,
    {
        push_quoted_part_n(out, &v[i]);
        i = i + 1;
        assert(out@ =~= o + quoted_parts_n(v, i as int));
    }
}

fn push_options_n<'ast, 'text>(out: &mut Vec<AnyNode<'ast, 'text>>, v: &'ast Vec<FnOrMarkupOption<'text>>)
    ensures
        final(out)@ == old(out)@ + options_n(v, v.len() as int),
{
    let ghost o = out@;
    let mut i: usize = 0;
    while i < v.len()
        invariant
            i <= v.len(),
            out@ == o + options_n(v, i as int),
        decreases v.len() - i,
    {
        push_option_n(out, &v[i]);
        i = i + 1;
        assert(out@ =~= o + options_n(v, i as int));
    }
}

fn push_attributes_n<'ast, 'text>(out: &mut Vec<AnyNode<'ast, 'text>>, v: &'ast Vec<Attribute<'text>>)
    ensures
        final(out)@ == old(out)@ + attributes_n(v, v.len() as int),
{
    let ghost o = out@;
    let mut i: usize = 0;
    while i < v.len()
        invariant
            i <= v.len(),
            out@ == o + attributes_n(v, i as int),
        decreases v.len() - i,
    {
        push_attribute_n(out, &v[i]);
        i = i + 1;
        assert(out@ =~= o + attributes_n(v, i as int));
    }
}

fn push_parts_n<'ast, 'text>(out: &mut Vec<AnyNode<'ast, 'text>>, v: &'ast Vec<PatternPart<'text>>)
    ensures
        final(out)@ == old(out)@ + parts_n(v, v.len() as int),
{
    let ghost o = out@;
    let mut i: usize = 0;
    while i < v.len()
        invariant
            i <= v.len(),
            out@ == o + parts_n(v, i as int),
        decreases v.len() - i,
    {
        push_part_n(out, &v[i]);
        i = i + 1;
        assert(out@ =~= o + parts_n(v, i as int));
    }
}

fn push_keys_n<'ast, 'text>(out: &mut Vec<AnyNode<'ast, 'text>>, v: &'ast Vec<Key<'text>>)
    ensures
        final(out)@ == old(out)@ + keys_n(v, v.len() as int),
{
    let ghost o = out@;
    let mut i: usize = 0;
    while i < v.len()
        invariant
            i <= v.len(),
            out@ == o + keys_n(v, i as int),
        decreases v.len() - i,
    {
        push_key_n(out, &v[i]);
        i = i + 1;
        assert(out@ =~= o + keys_n(v, i as int));
    }
}

fn push_variants_n<'ast, 'text>(out: &mut Vec<AnyNode<'ast, 'text>>, v: &'ast Vec<Variant<'text>>)
    ensures
        final(out)@ == old(out)@ + variants_n(v, v.len() as int),
{
    let ghost o = out@;
    let mut i: usize = 0;
    while i < v.len()
        invariant
            i <= v.len(),
            out@ == o + variants_n(v, i as int),
        decreases v.len() - i,
    {
        push_variant_n(out, &v[i]);
        i = i + 1;
        assert(out@ =~= o + variants_n(v, i as int));
    }
}

fn push_selectors_n<'ast, 'text>(out: &mut Vec<AnyNode<'ast, 'text>>, v: &'ast Vec<Variable<'text>>)
    ensures
        final(out)@ == old(out)@ + selectors_n(v, v.len() as int),
{
    let ghost o = out@;
    let mut i: usize = 0;
    while i < v.len()
        invariant
            i <= v.len(),
            out@ == o + selectors_n(v, i as int),
        decreases v.len() - i,
    {
        push_variable_n(out, &v[i]);
        i = i + 1;
        assert(out@ =~= o + selectors_n(v, i as int));
    }
}

fn push_declarations_n<'ast, 'text>(out: &mut Vec<AnyNode<'ast, 'text>>, v: &'ast Vec<Declaration<'text>>)
    ensures
        final(out)@ == old(out)@ + declarations_n(v, v.len() as int),
{
    let ghost o = out@;
    let mut i: usize = 0;
    while i < v.len()
        invariant
            i <= v.len(),
            out@ == o + declarations_n(v, i as int),
        decreases v.len() - i,
    {
        push_declaration_n(out, &v[i]);
        i = i + 1;
        assert(out@ =~= o + declarations_n(v, i as int));
    }
}

/// The nodes of a message, in the order in which a visit of it meets them:
/// each node before its children.
pub fn message_node_list<'ast, 'text>(m: &'ast Message<'text>) -> (r: Vec<AnyNode<'ast, 'text>>)
    ensures
        r@ == message_nodes(m),
{
    let mut out: Vec<AnyNode<'ast, 'text>> = Vec::new();
    match m {
        Message::Simple(p) => push_pattern_n(&mut out, p),
        Message::Complex(c) => push_complex_n(&mut out, c),
    }
    assert(out@ =~= message_nodes(m));
    out
}

/// Every node in `ns` fits in the locations of the text.
pub open spec fn nodes_fit(ns: Nodes) -> bool {
    forall|i: int| 0 <= i < ns.len() ==> #[trigger] ns[i].fits()
}

proof fn lemma_quoted_part_n_fit<'ast, 'text>(x: &'ast QuotedPart<'text>, s: Seq<char>)
    requires
        x.wf(s),
    ensures
        nodes_fit(quoted_part_n(x)),
{
    
}

proof fn lemma_quoted_n_fit<'ast, 'text>(x: &'ast Quoted<'text>, s: Seq<char>)
    requires
        x.wf(s),
    ensures
        nodes_fit(quoted_n(x)),
{
    lemma_quoted_parts_n_fit(&x.parts, x.parts.len() as int, s);
}

proof fn lemma_literal_n_fit<'ast, 'text>(x: &'ast Literal<'text>, s: Seq<char>)
    requires
        x.wf(s),
    ensures
        nodes_fit(literal_n(x)),
{
    match x {
        Literal::Quoted(q) => lemma_quoted_n_fit(q, s),
        _ => {},
    }
}

proof fn lemma_lov_n_fit<'ast, 'text>(x: &'ast LiteralOrVariable<'text>, s: Seq<char>)
    requires
        x.wf(s),
    ensures
        nodes_fit(lov_n(x)),
{
    match x {
        LiteralOrVariable::Literal(l) => lemma_literal_n_fit(l, s),
        _ => {},
    }
}

proof fn lemma_option_n_fit<'ast, 'text>(x: &'ast FnOrMarkupOption<'text>, s: Seq<char>)
    requires
        x.wf(s),
    ensures
        nodes_fit(option_n(x)),
{
    lemma_lov_n_fit(&x.value, s);
}

proof fn lemma_annotation_n_fit<'ast, 'text>(x: &'ast Annotation<'text>, s: Seq<char>)
    requires
        x.wf(s),
    ensures
        nodes_fit(annotation_n(x)),
{
    match x {
        Annotation::Function(f) => lemma_options_n_fit(&f.options, f.options.len() as int, s),
    }
}

proof fn lemma_opt_annotation_n_fit<'ast, 'text>(x: &'ast Option<Annotation<'text>>, s: Seq<char>)
    requires
        crate::ast::annotation_wf(*x, s),
    ensures
        nodes_fit(opt_annotation_n(x)),
{
    match x {
        Some(a) => lemma_annotation_n_fit(a, s),
        None => {},
    }
}

proof fn lemma_attribute_n_fit<'ast, 'text>(x: &'ast Attribute<'text>, s: Seq<char>)
    requires
        x.wf(s),
    ensures
        nodes_fit(attribute_n(x)),
{
    match &x.value {
        Some(l) => lemma_literal_n_fit(l, s),
        None => {},
    }
}

proof fn lemma_literal_expression_n_fit<'ast, 'text>(x: &'ast LiteralExpression<'text>, s: Seq<char>)
    requires
        x.wf(s),
    ensures
        nodes_fit(literal_expression_n(x)),
{
    lemma_literal_n_fit(&x.literal, s);
    lemma_opt_annotation_n_fit(&x.annotation, s);
    lemma_attributes_n_fit(&x.attributes, x.attributes.len() as int, s);
}

proof fn lemma_variable_expression_n_fit<'ast, 'text>(x: &'ast VariableExpression<'text>, s: Seq<char>)
    requires
        x.wf(s),
    ensures
        nodes_fit(variable_expression_n(x)),
{
    lemma_opt_annotation_n_fit(&x.annotation, s);
    lemma_attributes_n_fit(&x.attributes, x.attributes.len() as int, s);
}

proof fn lemma_annotation_expression_n_fit<'ast, 'text>(x: &'ast AnnotationExpression<'text>, s: Seq<char>)
    requires
        x.wf(s),
    ensures
        nodes_fit(annotation_expression_n(x)),
{
    lemma_annotation_n_fit(&x.annotation, s);
    lemma_attributes_n_fit(&x.attributes, x.attributes.len() as int, s);
}

proof fn lemma_expression_n_fit<'ast, 'text>(x: &'ast Expression<'text>, s: Seq<char>)
    requires
        x.wf(s),
    ensures
        nodes_fit(expression_n(x)),
{
    match x {
        Expression::LiteralExpression(e) => lemma_literal_expression_n_fit(e, s),
        Expression::VariableExpression(e) => lemma_variable_expression_n_fit(e, s),
        Expression::AnnotationExpression(e) => lemma_annotation_expression_n_fit(e, s),
    }
}

proof fn lemma_markup_n_fit<'ast, 'text>(x: &'ast Markup<'text>, s: Seq<char>)
    requires
        x.wf(s),
    ensures
        nodes_fit(markup_n(x)),
{
    lemma_options_n_fit(&x.options, x.options.len() as int, s);
    lemma_attributes_n_fit(&x.attributes, x.attributes.len() as int, s);
}

proof fn lemma_part_n_fit<'ast, 'text>(x: &'ast PatternPart<'text>, s: Seq<char>)
    requires
        x.wf(s) && x.fits(),
    ensures
        nodes_fit(part_n(x)),
{
    match x {
        PatternPart::Expression(e) => lemma_expression_n_fit(e, s),
        PatternPart::Markup(m) => lemma_markup_n_fit(m, s),
        _ => {},
    }
}

proof fn lemma_pattern_n_fit<'ast, 'text>(x: &'ast Pattern<'text>, s: Seq<char>)
    requires
        x.wf(s) && x.fits(),
    ensures
        nodes_fit(pattern_n(x)),
{
    lemma_parts_n_fit(&x.parts, x.parts.len() as int, s);
}

proof fn lemma_quoted_pattern_n_fit<'ast, 'text>(x: &'ast QuotedPattern<'text>, s: Seq<char>)
    requires
        x.wf(s),
    ensures
        nodes_fit(quoted_pattern_n(x)),
{
    lemma_pattern_n_fit(&x.pattern, s);
}

proof fn lemma_key_n_fit<'ast, 'text>(x: &'ast Key<'text>, s: Seq<char>)
    requires
        x.wf(s),
    ensures
        nodes_fit(key_n(x)),
{
    match x {
        Key::Literal(l) => lemma_literal_n_fit(l, s),
        _ => {},
    }
}

proof fn lemma_variant_n_fit<'ast, 'text>(x: &'ast Variant<'text>, s: Seq<char>)
    requires
        x.wf(s),
    ensures
        nodes_fit(variant_n(x)),
{
    lemma_keys_n_fit(&x.keys, x.keys.len() as int, s);
    lemma_quoted_pattern_n_fit(&x.pattern, s);
}

proof fn lemma_matcher_n_fit<'ast, 'text>(x: &'ast Matcher<'text>, s: Seq<char>)
    requires
        x.wf(s),
    ensures
        nodes_fit(matcher_n(x)),
{
    crate::ast::lemma_matcher_fits(*x, s);
    lemma_selectors_n_fit(&x.selectors, x.selectors.len() as int, s);
    lemma_variants_n_fit(&x.variants, x.variants.len() as int, s);
}

proof fn lemma_declaration_n_fit<'ast, 'text>(x: &'ast Declaration<'text>, s: Seq<char>)
    requires
        x.wf(s),
    ensures
        nodes_fit(declaration_n(x)),
{
    match x {
        Declaration::InputDeclaration(d) => lemma_variable_expression_n_fit(&d.expression, s),
        Declaration::LocalDeclaration(d) => lemma_expression_n_fit(&d.expression, s),
    }
}

proof fn lemma_body_n_fit<'ast, 'text>(x: &'ast ComplexMessageBody<'text>, s: Seq<char>)
    requires
        x.wf(s),
    ensures
        nodes_fit(body_n(x)),
{
    match x {
        ComplexMessageBody::QuotedPattern(q) => lemma_quoted_pattern_n_fit(q, s),
        ComplexMessageBody::Matcher(m) => lemma_matcher_n_fit(m, s),
    }
}

proof fn lemma_complex_n_fit<'ast, 'text>(x: &'ast ComplexMessage<'text>, s: Seq<char>)
    requires
        x.wf(s),
    ensures
        nodes_fit(complex_n(x)),
{
    lemma_declarations_n_fit(&x.declarations, x.declarations.len() as int, s);
    lemma_body_n_fit(&x.body, s);
}

proof fn lemma_quoted_parts_n_fit<'ast, 'text>(v: &'ast Vec<QuotedPart<'text>>, n: int, s: Seq<char>)
    requires
        forall|i: int| 0 <= i < v.len() ==> #[trigger] v[i].wf(s),
    ensures
        nodes_fit(quoted_parts_n(v, n)),
    decreases n,
{
    if 0 < n <= v.len() {
        lemma_quoted_parts_n_fit(v, n - 1, s);
        assert(v[n - 1].wf(s));
        lemma_quoted_part_n_fit(&v[n - 1], s);
    }
}

proof fn lemma_options_n_fit<'ast, 'text>(v: &'ast Vec<FnOrMarkupOption<'text>>, n: int, s: Seq<char>)
    requires
        forall|i: int| 0 <= i < v.len() ==> #[trigger] v[i].wf(s),
    ensures
        nodes_fit(options_n(v, n)),
    decreases n,
{
    if 0 < n <= v.len() {
        lemma_options_n_fit(v, n - 1, s);
        assert(v[n - 1].wf(s));
        lemma_option_n_fit(&v[n - 1], s);
    }
}

proof fn lemma_attributes_n_fit<'ast, 'text>(v: &'ast Vec<Attribute<'text>>, n: int, s: Seq<char>)
    requires
        forall|i: int| 0 <= i < v.len() ==> #[trigger] v[i].wf(s),
    ensures
        nodes_fit(attributes_n(v, n)),
    decreases n,
{
    if 0 < n <= v.len() {
        lemma_attributes_n_fit(v, n - 1, s);
        assert(v[n - 1].wf(s));
        lemma_attribute_n_fit(&v[n - 1], s);
    }
}

proof fn lemma_parts_n_fit<'ast, 'text>(v: &'ast Vec<PatternPart<'text>>, n: int, s: Seq<char>)
    requires
        forall|i: int| 0 <= i < v.len() ==> #[trigger] v[i].wf(s) && v[i].fits(),
    ensures
        nodes_fit(parts_n(v, n)),
    decreases n,
{
    if 0 < n <= v.len() {
        lemma_parts_n_fit(v, n - 1, s);
        assert(v[n - 1].wf(s) && v[n - 1].fits());
        lemma_part_n_fit(&v[n - 1], s);
    }
}

proof fn lemma_keys_n_fit<'ast, 'text>(v: &'ast Vec<Key<'text>>, n: int, s: Seq<char>)
    requires
        forall|i: int| 0 <= i < v.len() ==> #[trigger] v[i].wf(s),
    ensures
        nodes_fit(keys_n(v, n)),
    decreases n,
{
    if 0 < n <= v.len() {
        lemma_keys_n_fit(v, n - 1, s);
        assert(v[n - 1].wf(s));
        lemma_key_n_fit(&v[n - 1], s);
    }
}

proof fn lemma_variants_n_fit<'ast, 'text>(v: &'ast Vec<Variant<'text>>, n: int, s: Seq<char>)
    requires
        forall|i: int| 0 <= i < v.len() ==> #[trigger] v[i].wf(s),
    ensures
        nodes_fit(variants_n(v, n)),
    decreases n,
{
    if 0 < n <= v.len() {
        lemma_variants_n_fit(v, n - 1, s);
        assert(v[n - 1].wf(s));
        lemma_variant_n_fit(&v[n - 1], s);
    }
}

proof fn lemma_selectors_n_fit<'ast, 'text>(v: &'ast Vec<Variable<'text>>, n: int, s: Seq<char>)
    requires
        forall|i: int| 0 <= i < v.len() ==> #[trigger] v[i].wf(s),
    ensures
        nodes_fit(selectors_n(v, n)),
    decreases n,
{
    if 0 < n <= v.len() {
        lemma_selectors_n_fit(v, n - 1, s);
        assert(v[n - 1].wf(s));
        lemma_variable_n_fit(&v[n - 1], s);
    }
}

proof fn lemma_declarations_n_fit<'ast, 'text>(v: &'ast Vec<Declaration<'text>>, n: int, s: Seq<char>)
    requires
        forall|i: int| 0 <= i < v.len() ==> #[trigger] v[i].wf(s),
    ensures
        nodes_fit(declarations_n(v, n)),
    decreases n,
{
    if 0 < n <= v.len() {
        lemma_declarations_n_fit(v, n - 1, s);
        assert(v[n - 1].wf(s));
        lemma_declaration_n_fit(&v[n - 1], s);
    }
}

proof fn lemma_variable_n_fit<'ast, 'text>(x: &'ast Variable<'text>, s: Seq<char>)
    ensures
        nodes_fit(variable_n(x)),
{
}

/// Every node of a message placed in `s` fits in the locations of `s`, so
/// that its span can be computed.
pub proof fn law_message_nodes_fit<'ast, 'text>(m: &'ast Message<'text>, s: Seq<char>)
    requires
        m.wf(s),
    ensures
        nodes_fit(message_nodes(m)),
{
    match m {
        Message::Simple(p) => lemma_pattern_n_fit(p, s),
        Message::Complex(c) => lemma_complex_n_fit(c, s),
    }
}

/// The last node in `ns` whose span contains `loc`, if any.
pub open spec fn last_containing<'ast, 'text>(ns: Nodes<'ast, 'text>, loc: Location) -> Option<
    AnyNode<'ast, 'text>,
>
    decreases ns.len(),
{
    if ns.len() == 0 {
        None
    } else {
        let sp = ns.last().spec_span();
        if sp.start.byte() <= loc.byte() && loc.byte() < sp.end.byte() {
            Some(ns.last())
        } else {
            last_containing(ns.drop_last(), loc)
        }
    }
}

/// Finds the innermost node that contains the given location: the last one
/// that a visit of the tree meets.
pub fn find_node<'ast, 'text>(ast: &'ast Message<'text>, loc: Location) -> (r: Option<
    AnyNode<'ast, 'text>,
>)
    requires
        nodes_fit(message_nodes(ast)),
    ensures
        r == last_containing(message_nodes(ast), loc),
{
    let nodes = message_node_list(ast);
    let mut result: Option<AnyNode<'ast, 'text>> = None;
    let mut i: usize = 0;
    while i < nodes.len()
        invariant
            i <= nodes.len(),
            nodes@ == message_nodes(ast),
            nodes_fit(nodes@),
            result == last_containing(nodes@.take(i as int), loc),
        decreases nodes.len() - i,
    {
        assert(nodes@.take(i + 1).drop_last() =~= nodes@.take(i as int));
        assert(nodes[i as int].fits());
        if nodes[i].span().contains_loc(loc) {
            result = Some(nodes[i]);
        }
        i = i + 1;
    }
    assert(nodes@.take(nodes.len() as int) =~= nodes@);
    result
}

/// Whether the end of the node's span is not part of it: an expression
/// closed by its brace, a quoted pattern closed by its braces, a quoted
/// literal closed by its bar.
pub open spec fn exclusive_of_end(node: AnyNode) -> bool {
    match node {
        AnyNode::LiteralExpression(e) => e.has_closing_brace,
        AnyNode::AnnotationExpression(e) => e.has_closing_brace,
        AnyNode::VariableExpression(e) => e.has_closing_brace,
        AnyNode::QuotedPattern(q) => q.span.end != q.pattern.spec_span().end,
        AnyNode::Quoted(q) => if q.parts.len() == 0 {
            q.span.start.byte() + 2 == q.span.end.byte()
        } else {
            q.parts[q.parts.len() - 1].spec_span().end != q.span.end
        },
        _ => false,
    }
}

fn is_exclusive_of_end(node: &AnyNode) -> (r: bool)
    requires
        node.fits(),
    ensures
        r == exclusive_of_end(*node),
{
    match node {
        AnyNode::LiteralExpression(e) => e.has_closing_brace,
        AnyNode::AnnotationExpression(e) => e.has_closing_brace,
        AnyNode::VariableExpression(e) => e.has_closing_brace,
        AnyNode::QuotedPattern(q) => q.span.end.0 != q.pattern.span().end.0,
        AnyNode::Quoted(q) => {
            let n = q.parts.len();
            if n == 0 {
                q.span.start.0 as u64 + 2 == q.span.end.0 as u64
            } else {
                q.parts[n - 1].span().end.0 != q.span.end.0
            }
        },
        _ => false,
    }
}

/// The nodes that contain the location, from the root inward, and the nodes
/// just before it: those that end last, by the location.
pub type CursorContext<'ast, 'text> = (Nodes<'ast, 'text>, Nodes<'ast, 'text>);

/// How meeting `node` changes the context of a cursor at `loc`.
pub open spec fn cursor_step<'ast, 'text>(
    c: CursorContext<'ast, 'text>,
    node: AnyNode<'ast, 'text>,
    loc: Location,
) -> CursorContext<'ast, 'text> {
    let sp = node.spec_span();
    let start = sp.start.byte();
    let end = sp.end.byte();
    let l = loc.byte();
    let end_after = if exclusive_of_end(node) {
        l < end
    } else {
        l <= end
    };
    let containing = if start < l && end_after {
        c.0.push(node)
    } else {
        c.0
    };
    let prev1 = if start != end && c.1.len() > 0 {
        let prev_end = c.1.last().spec_span().end.byte();
        let p = if start < l && start >= prev_end {
            Seq::<AnyNode<'ast, 'text>>::empty()
        } else {
            c.1
        };
        if !end_after && end > prev_end {
            Seq::<AnyNode<'ast, 'text>>::empty()
        } else {
            p
        }
    } else {
        c.1
    };
    let prev2 = if !end_after && start != end {
        if prev1.len() == 0 || prev1.last().spec_span().end.byte() <= end {
            prev1.push(node)
        } else {
            prev1
        }
    } else {
        prev1
    };
    (containing, prev2)
}

/// The context of a cursor at `loc` after meeting the nodes `ns`.
pub open spec fn cursor_context<'ast, 'text>(ns: Nodes<'ast, 'text>, loc: Location) -> CursorContext<
    'ast,
    'text,
>
    decreases ns.len(),
{
    if ns.len() == 0 {
        (seq![], seq![])
    } else {
        cursor_step(cursor_context(ns.drop_last(), loc), ns.last(), loc)
    }
}

/// The nodes that contain a location, and the nodes that end last before
/// it.
pub struct ContainingNodesAndGreatestPreviousNodes<'ast, 'text> {
    pub containing_nodes: Vec<AnyNode<'ast, 'text>>,
    pub greatest_previous_nodes: Vec<AnyNode<'ast, 'text>>,
}

/// Finds the nodes around a cursor at `loc`: those whose span starts before
/// it and ends after it (or at it, when the end is part of the node), from
/// the root inward; and the nodes that end last by the location, of which
/// each ends no earlier than the one before.
pub fn find_node_at_cursor_with_context<'ast, 'text>(ast: &'ast Message<'text>, loc: Location) -> (r:
    ContainingNodesAndGreatestPreviousNodes<'ast, 'text>)
    requires
        nodes_fit(message_nodes(ast)),
    ensures
        (r.containing_nodes@, r.greatest_previous_nodes@) == cursor_context(message_nodes(ast), loc),
{
    let nodes = message_node_list(ast);
    let mut containing: Vec<AnyNode<'ast, 'text>> = Vec::new();
    let mut previous: Vec<AnyNode<'ast, 'text>> = Vec::new();
    let mut i: usize = 0;
    while i < nodes.len()
        invariant
            i <= nodes.len(),
            nodes@ == message_nodes(ast),
            nodes_fit(nodes@),
            forall|k: int| 0 <= k < previous.len() ==> #[trigger] previous[k].fits(),
            (containing@, previous@) == cursor_context(nodes@.take(i as int), loc),
        decreases nodes.len() - i,
    {
        assert(nodes@.take(i + 1).drop_last() =~= nodes@.take(i as int));
        let current = nodes[i];
        assert(current.fits());
        let span = current.span();
        let current_start = span.start.0;
        let current_end = span.end.0;
        let exclusive = is_exclusive_of_end(&current);
        let is_end_after_loc = if exclusive {
            loc.0 < current_end
        } else {
            loc.0 <= current_end
        };
        if current_start < loc.0 && is_end_after_loc {
            containing.push(current);
        }
        if current_start != current_end && previous.len() > 0 {
            let last = previous.len() - 1;
            assert(previous[last as int].fits());
            let prev_end = previous[last].span().end.0;
            if current_start < loc.0 && current_start >= prev_end {
                previous.clear();
            }
            if !is_end_after_loc && current_end > prev_end {
                previous.clear();
            }
        }
        if !is_end_after_loc && current_start != current_end {
            let push = if previous.len() == 0 {
                true
            } else {
                let last = previous.len() - 1;
                assert(previous[last as int].fits());
                previous[last].span().end.0 <= current_end
            };
            if push {
                previous.push(current);
            }
        }
        proof {
            assert(containing@ =~= cursor_context(nodes@.take(i + 1), loc).0);
            assert(previous@ =~= cursor_context(nodes@.take(i + 1), loc).1);
        }
        i = i + 1;
    }
    assert(nodes@.take(nodes.len() as int) =~= nodes@);
    ContainingNodesAndGreatestPreviousNodes {
        containing_nodes: containing,
        greatest_previous_nodes: previous,
    }
}

} // verus!
