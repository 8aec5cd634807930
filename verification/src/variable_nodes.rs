//! The variables of a message's tree, and the analyses that must meet each
//! of them: its semantic tokens and the occurrences that its scope records.
use vstd::prelude::*;

use crate::ast::Annotation;
use crate::ast::Attribute;
use crate::ast::ComplexMessage;
use crate::ast::ComplexMessageBody;
use crate::ast::Declaration;
use crate::ast::Expression;
use crate::ast::FnOrMarkupOption;
use crate::ast::Key;
use crate::ast::Literal;
use crate::ast::LiteralOrVariable;
use crate::ast::Markup;
use crate::ast::Matcher;
use crate::ast::Message;
use crate::ast::Pattern;
use crate::ast::PatternPart;
use crate::ast::QuotedPart;
use crate::ast::QuotedPattern;
use crate::ast::Variable;
use crate::ast::Variant;
use crate::ast::AnyNode;
use crate::ast_utils::Nodes;
use crate::ast_utils::annotation_n;
use crate::ast_utils::attribute_n;
use crate::ast_utils::attributes_n;
use crate::ast_utils::body_n;
use crate::ast_utils::declaration_n;
use crate::ast_utils::declarations_n;
use crate::ast_utils::expression_n;
use crate::ast_utils::key_n;
use crate::ast_utils::keys_n;
use crate::ast_utils::literal_n;
use crate::ast_utils::lov_n;
use crate::ast_utils::markup_n;
use crate::ast_utils::matcher_n;
use crate::ast_utils::message_nodes;
use crate::ast_utils::opt_annotation_n;
use crate::ast_utils::option_n;
use crate::ast_utils::options_n;
use crate::ast_utils::part_n;
use crate::ast_utils::parts_n;
use crate::ast_utils::pattern_n;
use crate::ast_utils::quoted_part_n;
use crate::ast_utils::quoted_parts_n;
use crate::ast_utils::quoted_pattern_n;
use crate::ast_utils::selectors_n;
use crate::ast_utils::variant_n;
use crate::ast_utils::variants_n;
use crate::scope::Occ;
use crate::scope::all_spans;
use crate::scope::first_declaration;
use crate::scope::scope_diagnostics;
use crate::scope::ScopeDiagnosticModel;
use crate::scope::body_occ;
use crate::scope::annotation_occ;
use crate::scope::declaration_occ;
use crate::scope::declarations_occ;
use crate::scope::expression_occ;
use crate::scope::message_occ;
use crate::scope::options_occ;
use crate::scope::part_occ;
use crate::scope::parts_occ;
use crate::scope::selectors_occ;
use crate::scope::variants_occ;
use crate::semantic_tokens::Token;
use crate::semantic_tokens::VARIABLE;
use crate::semantic_tokens::PARAMETER;
use crate::semantic_tokens::FUNCTION;
use crate::semantic_tokens::KEYWORD;
use crate::semantic_tokens::STRING;
use crate::semantic_tokens::NUMBER;
use crate::semantic_tokens::keyword_span;
use crate::semantic_tokens::annotation_tokens;
use crate::semantic_tokens::attributes_tokens;
use crate::semantic_tokens::declarations_tokens;
use crate::semantic_tokens::expression_tokens;
use crate::semantic_tokens::keys_tokens;
use crate::semantic_tokens::literal_tokens;
use crate::semantic_tokens::lov_tokens;
use crate::semantic_tokens::markup_tokens;
use crate::semantic_tokens::matcher_tokens;
use crate::semantic_tokens::message_tokens;
use crate::semantic_tokens::opt_annotation_tokens;
use crate::semantic_tokens::options_tokens;
use crate::semantic_tokens::parts_tokens;
use crate::semantic_tokens::variants_tokens;
use crate::text::Span;
use crate::text::Spanned;

verus! {

/// The variables among the nodes, as name and span, in order.
pub open spec fn node_variables(ns: Nodes) -> Seq<(Seq<char>, Span)>
    decreases ns.len(),
{
    if ns.len() == 0 {
        seq![]
    } else {
        let prev = node_variables(ns.drop_last());
        match ns.last() {
            AnyNode::Variable(v) => prev.push((v.name@, v.span)),
            _ => prev,
        }
    }
}

/// The spans of the tokens that mark variables, in order.
pub open spec fn token_variables(ts: Seq<Token>) -> Seq<Span>
    decreases ts.len(),
{
    if ts.len() == 0 {
        seq![]
    } else {
        let prev = token_variables(ts.drop_last());
        if ts.last().1 == VARIABLE {
            prev.push(ts.last().0)
        } else {
            prev
        }
    }
}

/// The names and spans of occurrences.
pub open spec fn occ_variables(o: Seq<Occ>) -> Seq<(Seq<char>, Span)> {
    o.map_values(|x: Occ| (x.0, x.1))
}

/// The spans of names and spans.
pub open spec fn spans_of(v: Seq<(Seq<char>, Span)>) -> Seq<Span> {
    v.map_values(|x: (Seq<char>, Span)| x.1)
}

proof fn lemma_nv_concat(a: Nodes, b: Nodes)
    ensures
        node_variables(a + b) == node_variables(a) + node_variables(b),
    decreases b.len(),
{
    if b.len() == 0 {
        assert(a + b =~= a);
        assert(node_variables(a) + seq![] =~= node_variables(a));
    } else {
        assert((a + b).drop_last() =~= a + b.drop_last());
        lemma_nv_concat(a, b.drop_last());
        match b.last() {
            AnyNode::Variable(v) => {
                assert(node_variables(a) + node_variables(b) =~= (node_variables(a) + node_variables(
                    b.drop_last(),
                )).push((v.name@, v.span)));
            },
            _ => {},
        }
    }
}

proof fn lemma_tv_concat(a: Seq<Token>, b: Seq<Token>)
    ensures
        token_variables(a + b) == token_variables(a) + token_variables(b),
    decreases b.len(),
{
    if b.len() == 0 {
        assert(a + b =~= a);
        assert(token_variables(a) + seq![] =~= token_variables(a));
    } else {
        assert((a + b).drop_last() =~= a + b.drop_last());
        lemma_tv_concat(a, b.drop_last());
        if b.last().1 == VARIABLE {
            assert(token_variables(a) + token_variables(b) =~= (token_variables(a) + token_variables(
                b.drop_last(),
            )).push(b.last().0));
        }
    }
}

proof fn lemma_nv_one(n: AnyNode)
    ensures
        node_variables(seq![n]) == match n {
            AnyNode::Variable(v) => seq![(v.name@, v.span)],
            _ => Seq::<(Seq<char>, Span)>::empty(),
        },
{
    assert(seq![n].drop_last() =~= Seq::<AnyNode>::empty());
    assert(seq![n].last() == n);
    assert(node_variables(Seq::<AnyNode>::empty()) =~= Seq::<(Seq<char>, Span)>::empty());
    assert(seq![n].len() == 1);
    if let AnyNode::Variable(v) = n {
        assert(Seq::<(Seq<char>, Span)>::empty().push((v.name@, v.span)) =~= seq![(v.name@, v.span)]);
    }
}

proof fn lemma_nv_two(a: AnyNode, b: AnyNode)
    requires
        !(a is Variable),
        !(b is Variable),
    ensures
        node_variables(seq![a, b]) == Seq::<(Seq<char>, Span)>::empty(),
{
    assert(seq![a, b] =~= seq![a] + seq![b]);
    lemma_nv_concat(seq![a], seq![b]);
    lemma_nv_one(a);
    lemma_nv_one(b);
}

proof fn lemma_tv_one(t: Token)
    ensures
        token_variables(seq![t]) == if t.1 == VARIABLE {
            seq![t.0]
        } else {
            Seq::<Span>::empty()
        },
{
    assert(seq![t].drop_last() =~= Seq::<Token>::empty());
    assert(seq![t].last() == t);
    assert(token_variables(Seq::<Token>::empty()) =~= Seq::<Span>::empty());
    assert(seq![t].len() == 1);
    assert(Seq::<Span>::empty().push(t.0) =~= seq![t.0]);
}

proof fn lemma_spans_concat(a: Seq<(Seq<char>, Span)>, b: Seq<(Seq<char>, Span)>)
    ensures
        spans_of(a + b) == spans_of(a) + spans_of(b),
{
    assert(spans_of(a + b) =~= spans_of(a) + spans_of(b));
}

proof fn lemma_occ_concat(a: Seq<Occ>, b: Seq<Occ>)
    ensures
        occ_variables(a + b) == occ_variables(a) + occ_variables(b),
{
    assert(occ_variables(a + b) =~= occ_variables(a) + occ_variables(b));
}

proof fn lemma_occ_push(a: Seq<Occ>, x: Occ)
    ensures
        occ_variables(a.push(x)) == occ_variables(a).push((x.0, x.1)),
{
    assert(occ_variables(a.push(x)) =~= occ_variables(a).push((x.0, x.1)));
}

proof fn lemma_vars_quoted_parts<'ast, 'text>(v: &'ast Vec<QuotedPart<'text>>, n: int)
    ensures
        node_variables(quoted_parts_n(v, n)) == Seq::<(Seq<char>, Span)>::empty(),
    decreases n,
{
    if n <= 0 || n > v.len() {
    } else {
        lemma_vars_quoted_parts(v, n - 1);
        lemma_nv_concat(quoted_parts_n(v, n - 1), quoted_part_n(&v[n - 1]));
        match &v[n - 1] {
            QuotedPart::Text(t) => lemma_nv_one(AnyNode::Text(t)),
            QuotedPart::Escape(e) => lemma_nv_one(AnyNode::Escape(e)),
        }
    }
}

proof fn lemma_vars_literal<'ast, 'text>(l: &'ast Literal<'text>)
    ensures
        node_variables(literal_n(l)) == Seq::<(Seq<char>, Span)>::empty(),
        token_variables(literal_tokens(*l)) == Seq::<Span>::empty(),
{
    lemma_tv_one(literal_tokens(*l)[0]);
    assert(literal_tokens(*l) =~= seq![literal_tokens(*l)[0]]);
    match l {
        Literal::Quoted(q) => {
            lemma_vars_quoted_parts(&q.parts, q.parts.len() as int);
            lemma_nv_concat(seq![AnyNode::Quoted(q)], quoted_parts_n(&q.parts, q.parts.len() as int));
            lemma_nv_one(AnyNode::Quoted(q));
        },
        Literal::Text(t) => lemma_nv_one(AnyNode::Text(t)),
        Literal::Number(x) => lemma_nv_one(AnyNode::Number(x)),
    }
}

proof fn lemma_vars_lov<'ast, 'text>(v: &'ast LiteralOrVariable<'text>)
    ensures
        token_variables(lov_tokens(*v)) == spans_of(node_variables(lov_n(v))),
        node_variables(lov_n(v)) == match v {
            LiteralOrVariable::Variable(x) => seq![(x.name@, x.span)],
            LiteralOrVariable::Literal(_) => Seq::<(Seq<char>, Span)>::empty(),
        },
{
    match v {
        LiteralOrVariable::Literal(l) => {
            lemma_vars_literal(l);
            assert(spans_of(Seq::<(Seq<char>, Span)>::empty()) =~= Seq::<Span>::empty());
        },
        LiteralOrVariable::Variable(x) => {
            lemma_nv_one(AnyNode::Variable(x));
            lemma_tv_one((x.span, VARIABLE));
            assert(spans_of(seq![(x.name@, x.span)]) =~= seq![x.span]);
        },
    }
}

proof fn lemma_vars_option<'ast, 'text>(o: &'ast FnOrMarkupOption<'text>)
    ensures
        node_variables(option_n(o)) == node_variables(lov_n(&o.value)),
{
    lemma_nv_concat(seq![AnyNode::FnOrMarkupOption(o), AnyNode::Identifier(&o.key)], lov_n(&o.value));
    lemma_nv_two(AnyNode::FnOrMarkupOption(o), AnyNode::Identifier(&o.key));
    assert(Seq::<(Seq<char>, Span)>::empty() + node_variables(lov_n(&o.value)) =~= node_variables(
        lov_n(&o.value),
    ));
}

proof fn lemma_vars_options<'ast, 'text>(v: &'ast Vec<FnOrMarkupOption<'text>>, n: int)
    requires
        0 <= n <= v.len(),
    ensures
        token_variables(options_tokens(v@.take(n))) == spans_of(node_variables(options_n(v, n))),
        occ_variables(options_occ(v@.take(n))) == node_variables(options_n(v, n)),
    decreases n,
{
    if n == 0 {
        assert(v@.take(0) =~= Seq::<FnOrMarkupOption>::empty());
        assert(spans_of(Seq::<(Seq<char>, Span)>::empty()) =~= Seq::<Span>::empty());
        assert(occ_variables(Seq::<Occ>::empty()) =~= Seq::<(Seq<char>, Span)>::empty());
    } else {
        lemma_vars_options(v, n - 1);
        let o = v@[n - 1];
        assert(v@.take(n).drop_last() =~= v@.take(n - 1));
        assert(v@.take(n).last() == o);
        lemma_vars_option(&v[n - 1]);
        lemma_vars_lov(&v[n - 1].value);
        lemma_nv_concat(options_n(v, n - 1), option_n(&v[n - 1]));
        let pre = options_tokens(v@.take(n - 1));
        lemma_tv_concat(pre + seq![(o.key.spec_span(), PARAMETER)], lov_tokens(o.value));
        lemma_tv_concat(pre, seq![(o.key.spec_span(), PARAMETER)]);
        lemma_tv_one((o.key.spec_span(), PARAMETER));
        lemma_spans_concat(node_variables(options_n(v, n - 1)), node_variables(lov_n(&v[n - 1].value)));
        assert(token_variables(pre) + Seq::<Span>::empty() =~= token_variables(pre));
        match o.value {
            LiteralOrVariable::Variable(x) => {
                lemma_occ_push(options_occ(v@.take(n - 1)), crate::scope::reference(x));
                assert(node_variables(options_n(v, n - 1)).push((x.name@, x.span)) =~= node_variables(
                    options_n(v, n - 1),
                ) + seq![(x.name@, x.span)]);
            },
            LiteralOrVariable::Literal(_) => {
                assert(node_variables(options_n(v, n - 1)) + Seq::<(Seq<char>, Span)>::empty()
                    =~= node_variables(options_n(v, n - 1)));
            },
        }
    }
}


proof fn lemma_vars_annotation<'ast, 'text>(a: &'ast Annotation<'text>)
    ensures
        token_variables(annotation_tokens(*a)) == spans_of(node_variables(annotation_n(a))),
        occ_variables(annotation_occ(Some(*a))) == node_variables(annotation_n(a)),
{
    match a {
        Annotation::Function(f) => {
            lemma_vars_options(&f.options, f.options.len() as int);
            assert(f.options@.take(f.options.len() as int) =~= f.options@);
            lemma_nv_concat(
                seq![AnyNode::Annotation(a), AnyNode::Identifier(&f.id)],
                options_n(&f.options, f.options.len() as int),
            );
            lemma_nv_two(AnyNode::Annotation(a), AnyNode::Identifier(&f.id));
            lemma_tv_concat(seq![(f.id.spec_span(), FUNCTION)], options_tokens(f.options@));
            lemma_tv_one((f.id.spec_span(), FUNCTION));
            assert(Seq::<(Seq<char>, Span)>::empty() + node_variables(options_n(&f.options, f.options.len() as int))
                =~= node_variables(options_n(&f.options, f.options.len() as int)));
            assert(Seq::<Span>::empty() + token_variables(options_tokens(f.options@)) =~= token_variables(
                options_tokens(f.options@),
            ));
        },
    }
}

proof fn lemma_vars_opt_annotation<'ast, 'text>(a: &'ast Option<Annotation<'text>>)
    ensures
        token_variables(opt_annotation_tokens(*a)) == spans_of(node_variables(opt_annotation_n(a))),
        occ_variables(annotation_occ(*a)) == node_variables(opt_annotation_n(a)),
{
    match a {
        Some(x) => lemma_vars_annotation(x),
        None => {
            assert(node_variables(Seq::<AnyNode>::empty()) =~= Seq::<(Seq<char>, Span)>::empty());
            assert(token_variables(Seq::<Token>::empty()) =~= Seq::<Span>::empty());
            assert(spans_of(Seq::<(Seq<char>, Span)>::empty()) =~= Seq::<Span>::empty());
            assert(occ_variables(Seq::<Occ>::empty()) =~= Seq::<(Seq<char>, Span)>::empty());
        },
    }
}

proof fn lemma_vars_attributes<'ast, 'text>(v: &'ast Vec<Attribute<'text>>, n: int)
    requires
        0 <= n <= v.len(),
    ensures
        token_variables(attributes_tokens(v@.take(n))) == Seq::<Span>::empty(),
        node_variables(attributes_n(v, n)) == Seq::<(Seq<char>, Span)>::empty(),
    decreases n,
{
    if n == 0 {
        assert(v@.take(0) =~= Seq::<Attribute>::empty());
        assert(node_variables(Seq::<AnyNode>::empty()) =~= Seq::<(Seq<char>, Span)>::empty());
        assert(token_variables(Seq::<Token>::empty()) =~= Seq::<Span>::empty());
    } else {
        lemma_vars_attributes(v, n - 1);
        let a = &v[n - 1];
        assert(v@.take(n).drop_last() =~= v@.take(n - 1));
        assert(v@.take(n).last() == *a);
        lemma_nv_concat(attributes_n(v, n - 1), attribute_n(a));
        lemma_nv_two(AnyNode::Attribute(a), AnyNode::Identifier(&a.key));
        match &a.value {
            Some(l) => {
                lemma_vars_literal(l);
                lemma_nv_concat(seq![AnyNode::Attribute(a), AnyNode::Identifier(&a.key)], literal_n(l));
                lemma_tv_concat(attributes_tokens(v@.take(n - 1)), literal_tokens(*l));
            },
            None => {
                assert(seq![AnyNode::Attribute(a), AnyNode::Identifier(&a.key)] + Seq::<AnyNode>::empty()
                    =~= seq![AnyNode::Attribute(a), AnyNode::Identifier(&a.key)]);
                lemma_tv_concat(attributes_tokens(v@.take(n - 1)), Seq::<Token>::empty());
                assert(token_variables(Seq::<Token>::empty()) =~= Seq::<Span>::empty());
            },
        }
        assert(Seq::<(Seq<char>, Span)>::empty() + Seq::<(Seq<char>, Span)>::empty() =~= Seq::<
            (Seq<char>, Span),
        >::empty());
        assert(Seq::<Span>::empty() + Seq::<Span>::empty() =~= Seq::<Span>::empty());
    }
}

proof fn lemma_vars_expression<'ast, 'text>(e: &'ast Expression<'text>)
    ensures
        token_variables(expression_tokens(*e)) == spans_of(node_variables(expression_n(e))),
        occ_variables(expression_occ(*e)) == node_variables(expression_n(e)),
{
    let emp = Seq::<(Seq<char>, Span)>::empty();
    match e {
        Expression::LiteralExpression(x) => {
            let n0 = seq![AnyNode::LiteralExpression(x)];
            let n1 = literal_n(&x.literal);
            let n2 = opt_annotation_n(&x.annotation);
            let n3 = attributes_n(&x.attributes, x.attributes.len() as int);
            lemma_vars_literal(&x.literal);
            lemma_vars_opt_annotation(&x.annotation);
            lemma_vars_attributes(&x.attributes, x.attributes.len() as int);
            assert(x.attributes@.take(x.attributes.len() as int) =~= x.attributes@);
            lemma_nv_one(AnyNode::LiteralExpression(x));
            lemma_nv_concat(n0 + n1 + n2, n3);
            lemma_nv_concat(n0 + n1, n2);
            lemma_nv_concat(n0, n1);
            let t1 = literal_tokens(x.literal);
            let t2 = opt_annotation_tokens(x.annotation);
            let t3 = attributes_tokens(x.attributes@);
            lemma_tv_concat(t1 + t2, t3);
            lemma_tv_concat(t1, t2);
            assert(emp + emp + node_variables(n2) + emp =~= node_variables(n2));
            assert(Seq::<Span>::empty() + token_variables(t2) + Seq::<Span>::empty() =~= token_variables(t2));
        },
        Expression::VariableExpression(x) => {
            let n0 = seq![AnyNode::VariableExpression(x), AnyNode::Variable(&x.variable)];
            let n2 = opt_annotation_n(&x.annotation);
            let n3 = attributes_n(&x.attributes, x.attributes.len() as int);
            lemma_vars_opt_annotation(&x.annotation);
            lemma_vars_attributes(&x.attributes, x.attributes.len() as int);
            assert(x.attributes@.take(x.attributes.len() as int) =~= x.attributes@);
            assert(n0 =~= seq![AnyNode::VariableExpression(x)] + seq![AnyNode::Variable(&x.variable)]);
            lemma_nv_concat(seq![AnyNode::VariableExpression(x)], seq![AnyNode::Variable(&x.variable)]);
            lemma_nv_one(AnyNode::VariableExpression(x));
            lemma_nv_one(AnyNode::Variable(&x.variable));
            lemma_nv_concat(n0 + n2, n3);
            lemma_nv_concat(n0, n2);
            let t0 = seq![(x.variable.span, VARIABLE)];
            let t2 = opt_annotation_tokens(x.annotation);
            let t3 = attributes_tokens(x.attributes@);
            lemma_tv_concat(t0 + t2, t3);
            lemma_tv_concat(t0, t2);
            lemma_tv_one((x.variable.span, VARIABLE));
            let v0 = seq![(x.variable.name@, x.variable.span)];
            assert(node_variables(n0) =~= v0);
            lemma_spans_concat(v0, node_variables(n2));
            assert(spans_of(v0) =~= seq![x.variable.span]);
            assert(node_variables(expression_n(e)) =~= v0 + node_variables(n2));
            lemma_occ_concat(seq![crate::scope::reference(x.variable)], annotation_occ(x.annotation));
            assert(occ_variables(seq![crate::scope::reference(x.variable)]) =~= v0);
            assert(token_variables(expression_tokens(*e)) =~= seq![x.variable.span] + token_variables(t2));
        },
        Expression::AnnotationExpression(x) => {
            let n0 = seq![AnyNode::AnnotationExpression(x)];
            let n1 = annotation_n(&x.annotation);
            let n3 = attributes_n(&x.attributes, x.attributes.len() as int);
            lemma_vars_annotation(&x.annotation);
            lemma_vars_attributes(&x.attributes, x.attributes.len() as int);
            assert(x.attributes@.take(x.attributes.len() as int) =~= x.attributes@);
            lemma_nv_one(AnyNode::AnnotationExpression(x));
            lemma_nv_concat(n0 + n1, n3);
            lemma_nv_concat(n0, n1);
            lemma_tv_concat(annotation_tokens(x.annotation), attributes_tokens(x.attributes@));
            assert(emp + node_variables(n1) + emp =~= node_variables(n1));
            assert(token_variables(annotation_tokens(x.annotation)) + Seq::<Span>::empty() =~= token_variables(
                annotation_tokens(x.annotation),
            ));
        },
    }
}

proof fn lemma_vars_markup<'ast, 'text>(m: &'ast Markup<'text>)
    ensures
        token_variables(markup_tokens(*m)) == spans_of(node_variables(markup_n(m))),
        occ_variables(options_occ(m.options@)) == node_variables(markup_n(m)),
{
    let n0 = seq![AnyNode::Markup(m), AnyNode::Identifier(&m.id)];
    let n1 = options_n(&m.options, m.options.len() as int);
    let n2 = attributes_n(&m.attributes, m.attributes.len() as int);
    lemma_vars_options(&m.options, m.options.len() as int);
    lemma_vars_attributes(&m.attributes, m.attributes.len() as int);
    assert(m.options@.take(m.options.len() as int) =~= m.options@);
    assert(m.attributes@.take(m.attributes.len() as int) =~= m.attributes@);
    lemma_nv_two(AnyNode::Markup(m), AnyNode::Identifier(&m.id));
    lemma_nv_concat(n0 + n1, n2);
    lemma_nv_concat(n0, n1);
    lemma_tv_concat(options_tokens(m.options@), attributes_tokens(m.attributes@));
    let emp = Seq::<(Seq<char>, Span)>::empty();
    assert(emp + node_variables(n1) + emp =~= node_variables(n1));
    assert(token_variables(options_tokens(m.options@)) + Seq::<Span>::empty() =~= token_variables(
        options_tokens(m.options@),
    ));
}

proof fn lemma_vars_part<'ast, 'text>(p: &'ast PatternPart<'text>)
    ensures
        token_variables(parts_tokens(seq![*p])) == spans_of(node_variables(part_n(p))),
        occ_variables(part_occ(*p)) == node_variables(part_n(p)),
{
    assert(seq![*p].drop_last() =~= Seq::<PatternPart>::empty());
    assert(seq![*p].last() == *p);
    assert(parts_tokens(Seq::<PatternPart>::empty()) =~= Seq::<Token>::empty());
    let emp = Seq::<Token>::empty();
    match p {
        PatternPart::Text(t) => {
            lemma_nv_one(AnyNode::Text(t));
            assert(emp + emp =~= emp);
            assert(token_variables(emp) =~= Seq::<Span>::empty());
            assert(spans_of(Seq::<(Seq<char>, Span)>::empty()) =~= Seq::<Span>::empty());
            assert(occ_variables(Seq::<Occ>::empty()) =~= Seq::<(Seq<char>, Span)>::empty());
        },
        PatternPart::Escape(x) => {
            lemma_nv_one(AnyNode::Escape(x));
            assert(emp + emp =~= emp);
            assert(token_variables(emp) =~= Seq::<Span>::empty());
            assert(spans_of(Seq::<(Seq<char>, Span)>::empty()) =~= Seq::<Span>::empty());
            assert(occ_variables(Seq::<Occ>::empty()) =~= Seq::<(Seq<char>, Span)>::empty());
        },
        PatternPart::Expression(e) => {
            lemma_vars_expression(e);
            assert(emp + expression_tokens(*e) =~= expression_tokens(*e));
        },
        PatternPart::Markup(m) => {
            lemma_vars_markup(m);
            assert(emp + markup_tokens(*m) =~= markup_tokens(*m));
        },
    }
}

proof fn lemma_vars_parts<'ast, 'text>(v: &'ast Vec<PatternPart<'text>>, n: int)
    requires
        0 <= n <= v.len(),
    ensures
        token_variables(parts_tokens(v@.take(n))) == spans_of(node_variables(parts_n(v, n))),
        occ_variables(parts_occ(v@.take(n))) == node_variables(parts_n(v, n)),
    decreases n,
{
    if n == 0 {
        assert(v@.take(0) =~= Seq::<PatternPart>::empty());
        assert(node_variables(Seq::<AnyNode>::empty()) =~= Seq::<(Seq<char>, Span)>::empty());
        assert(token_variables(Seq::<Token>::empty()) =~= Seq::<Span>::empty());
        assert(spans_of(Seq::<(Seq<char>, Span)>::empty()) =~= Seq::<Span>::empty());
        assert(occ_variables(Seq::<Occ>::empty()) =~= Seq::<(Seq<char>, Span)>::empty());
    } else {
        lemma_vars_parts(v, n - 1);
        let p = &v[n - 1];
        assert(v@.take(n).drop_last() =~= v@.take(n - 1));
        assert(v@.take(n).last() == *p);
        lemma_vars_part(p);
        assert(seq![*p].drop_last() =~= Seq::<PatternPart>::empty());
        assert(parts_tokens(Seq::<PatternPart>::empty()) =~= Seq::<Token>::empty());
        let last_t = match *p {
            PatternPart::Expression(e) => expression_tokens(e),
            PatternPart::Markup(m) => markup_tokens(m),
            _ => seq![],
        };
        assert(parts_tokens(seq![*p]) =~= Seq::<Token>::empty() + last_t);
        assert(Seq::<Token>::empty() + last_t =~= last_t);
        lemma_nv_concat(parts_n(v, n - 1), part_n(p));
        lemma_tv_concat(parts_tokens(v@.take(n - 1)), last_t);
        lemma_spans_concat(node_variables(parts_n(v, n - 1)), node_variables(part_n(p)));
        lemma_occ_concat(parts_occ(v@.take(n - 1)), part_occ(*p));
    }
}

proof fn lemma_vars_pattern<'ast, 'text>(p: &'ast Pattern<'text>)
    ensures
        token_variables(parts_tokens(p.parts@)) == spans_of(node_variables(pattern_n(p))),
        occ_variables(parts_occ(p.parts@)) == node_variables(pattern_n(p)),
{
    lemma_vars_parts(&p.parts, p.parts.len() as int);
    assert(p.parts@.take(p.parts.len() as int) =~= p.parts@);
    lemma_nv_concat(seq![AnyNode::Pattern(p)], parts_n(&p.parts, p.parts.len() as int));
    lemma_nv_one(AnyNode::Pattern(p));
    assert(Seq::<(Seq<char>, Span)>::empty() + node_variables(parts_n(&p.parts, p.parts.len() as int))
        =~= node_variables(parts_n(&p.parts, p.parts.len() as int)));
}

proof fn lemma_vars_quoted_pattern<'ast, 'text>(q: &'ast QuotedPattern<'text>)
    ensures
        token_variables(parts_tokens(q.pattern.parts@)) == spans_of(node_variables(quoted_pattern_n(q))),
        occ_variables(parts_occ(q.pattern.parts@)) == node_variables(quoted_pattern_n(q)),
{
    lemma_vars_pattern(&q.pattern);
    lemma_nv_concat(seq![AnyNode::QuotedPattern(q)], pattern_n(&q.pattern));
    lemma_nv_one(AnyNode::QuotedPattern(q));
    assert(Seq::<(Seq<char>, Span)>::empty() + node_variables(pattern_n(&q.pattern)) =~= node_variables(
        pattern_n(&q.pattern),
    ));
}


proof fn lemma_vars_keys<'ast, 'text>(v: &'ast Vec<Key<'text>>, n: int)
    requires
        0 <= n <= v.len(),
    ensures
        token_variables(keys_tokens(v@.take(n))) == Seq::<Span>::empty(),
        node_variables(keys_n(v, n)) == Seq::<(Seq<char>, Span)>::empty(),
    decreases n,
{
    if n == 0 {
        assert(v@.take(0) =~= Seq::<Key>::empty());
        assert(node_variables(Seq::<AnyNode>::empty()) =~= Seq::<(Seq<char>, Span)>::empty());
        assert(token_variables(Seq::<Token>::empty()) =~= Seq::<Span>::empty());
    } else {
        lemma_vars_keys(v, n - 1);
        let k = &v[n - 1];
        assert(v@.take(n).drop_last() =~= v@.take(n - 1));
        assert(v@.take(n).last() == *k);
        lemma_nv_concat(keys_n(v, n - 1), key_n(k));
        match k {
            Key::Literal(l) => {
                lemma_vars_literal(l);
                lemma_tv_concat(keys_tokens(v@.take(n - 1)), literal_tokens(*l));
            },
            Key::Star(x) => {
                lemma_nv_one(AnyNode::Star(x));
                lemma_tv_concat(keys_tokens(v@.take(n - 1)), Seq::<Token>::empty());
                assert(token_variables(Seq::<Token>::empty()) =~= Seq::<Span>::empty());
            },
        }
        assert(Seq::<(Seq<char>, Span)>::empty() + Seq::<(Seq<char>, Span)>::empty() =~= Seq::<
            (Seq<char>, Span),
        >::empty());
        assert(Seq::<Span>::empty() + Seq::<Span>::empty() =~= Seq::<Span>::empty());
    }
}

proof fn lemma_vars_variants<'ast, 'text>(v: &'ast Vec<Variant<'text>>, n: int)
    requires
        0 <= n <= v.len(),
    ensures
        token_variables(variants_tokens(v@.take(n))) == spans_of(node_variables(variants_n(v, n))),
        occ_variables(variants_occ(v@.take(n))) == node_variables(variants_n(v, n)),
    decreases n,
{
    if n == 0 {
        assert(v@.take(0) =~= Seq::<Variant>::empty());
        assert(node_variables(Seq::<AnyNode>::empty()) =~= Seq::<(Seq<char>, Span)>::empty());
        assert(token_variables(Seq::<Token>::empty()) =~= Seq::<Span>::empty());
        assert(spans_of(Seq::<(Seq<char>, Span)>::empty()) =~= Seq::<Span>::empty());
        assert(occ_variables(Seq::<Occ>::empty()) =~= Seq::<(Seq<char>, Span)>::empty());
    } else {
        lemma_vars_variants(v, n - 1);
        let x = &v[n - 1];
        assert(v@.take(n).drop_last() =~= v@.take(n - 1));
        assert(v@.take(n).last() == *x);
        lemma_vars_keys(&x.keys, x.keys.len() as int);
        assert(x.keys@.take(x.keys.len() as int) =~= x.keys@);
        lemma_vars_quoted_pattern(&x.pattern);
        let nk = keys_n(&x.keys, x.keys.len() as int);
        let nq = quoted_pattern_n(&x.pattern);
        lemma_nv_one(AnyNode::Variant(x));
        lemma_nv_concat(seq![AnyNode::Variant(x)] + nk, nq);
        lemma_nv_concat(seq![AnyNode::Variant(x)], nk);
        let emp = Seq::<(Seq<char>, Span)>::empty();
        assert(node_variables(variant_n(x)) =~= node_variables(nq));
        lemma_nv_concat(variants_n(v, n - 1), variant_n(x));
        let pre = variants_tokens(v@.take(n - 1));
        lemma_tv_concat(pre + keys_tokens(x.keys@), parts_tokens(x.pattern.pattern.parts@));
        lemma_tv_concat(pre, keys_tokens(x.keys@));
        assert(token_variables(pre) + Seq::<Span>::empty() =~= token_variables(pre));
        lemma_spans_concat(node_variables(variants_n(v, n - 1)), node_variables(nq));
        lemma_occ_concat(variants_occ(v@.take(n - 1)), parts_occ(x.pattern.pattern.parts@));
    }
}

proof fn lemma_vars_selectors<'ast, 'text>(v: &'ast Vec<Variable<'text>>, n: int, t: Seq<Token>)
    requires
        0 <= n <= v.len(),
        t.len() == n,
        forall|i: int| 0 <= i < n ==> #[trigger] t[i] == (v@[i].span, VARIABLE),
    ensures
        token_variables(t) == spans_of(node_variables(selectors_n(v, n))),
        occ_variables(selectors_occ(v@.take(n))) == node_variables(selectors_n(v, n)),
    decreases n,
{
    if n == 0 {
        assert(v@.take(0) =~= Seq::<Variable>::empty());
        assert(t =~= Seq::<Token>::empty());
        assert(node_variables(Seq::<AnyNode>::empty()) =~= Seq::<(Seq<char>, Span)>::empty());
        assert(token_variables(Seq::<Token>::empty()) =~= Seq::<Span>::empty());
        assert(spans_of(Seq::<(Seq<char>, Span)>::empty()) =~= Seq::<Span>::empty());
        assert(occ_variables(Seq::<Occ>::empty()) =~= Seq::<(Seq<char>, Span)>::empty());
    } else {
        lemma_vars_selectors(v, n - 1, t.drop_last());
        let x = &v[n - 1];
        assert(v@.take(n).drop_last() =~= v@.take(n - 1));
        assert(v@.take(n).last() == *x);
        lemma_nv_concat(selectors_n(v, n - 1), seq![AnyNode::Variable(x)]);
        lemma_nv_one(AnyNode::Variable(x));
        assert(t.last() == (x.span, VARIABLE));
        lemma_occ_push(selectors_occ(v@.take(n - 1)), crate::scope::reference(*x));
        assert(node_variables(selectors_n(v, n - 1)).push((x.name@, x.span)) =~= node_variables(
            selectors_n(v, n - 1),
        ) + seq![(x.name@, x.span)]);
        assert(spans_of(node_variables(selectors_n(v, n))) =~= spans_of(node_variables(selectors_n(v, n - 1))).push(
            x.span,
        ));
    }
}

proof fn lemma_vars_matcher<'ast, 'text>(m: &'ast Matcher<'text>)
    ensures
        token_variables(matcher_tokens(*m)) == spans_of(node_variables(matcher_n(m))),
        occ_variables(selectors_occ(m.selectors@) + variants_occ(m.variants@)) == node_variables(matcher_n(m)),
{
    let ns = selectors_n(&m.selectors, m.selectors.len() as int);
    let nv = variants_n(&m.variants, m.variants.len() as int);
    let ts = m.selectors@.map_values(|v: crate::ast::Variable| (v.span, VARIABLE));
    lemma_vars_selectors(&m.selectors, m.selectors.len() as int, ts);
    lemma_vars_variants(&m.variants, m.variants.len() as int);
    assert(m.selectors@.take(m.selectors.len() as int) =~= m.selectors@);
    assert(m.variants@.take(m.variants.len() as int) =~= m.variants@);
    lemma_nv_one(AnyNode::Matcher(m));
    lemma_nv_concat(seq![AnyNode::Matcher(m)] + ns, nv);
    lemma_nv_concat(seq![AnyNode::Matcher(m)], ns);
    let k = seq![(keyword_span(*m), KEYWORD)];
    lemma_tv_concat(k + ts, variants_tokens(m.variants@));
    lemma_tv_concat(k, ts);
    lemma_tv_one(k[0]);
    assert(k =~= seq![k[0]]);
    assert(Seq::<Span>::empty() + token_variables(ts) =~= token_variables(ts));
    assert(Seq::<(Seq<char>, Span)>::empty() + node_variables(ns) =~= node_variables(ns));
    lemma_spans_concat(node_variables(ns), node_variables(nv));
    lemma_occ_concat(selectors_occ(m.selectors@), variants_occ(m.variants@));
}


/// `a` and `b` hold the same names and spans.
pub open spec fn same_variables(a: Seq<(Seq<char>, Span)>, b: Seq<(Seq<char>, Span)>) -> bool {
    forall|p: (Seq<char>, Span)| a.contains(p) <==> b.contains(p)
}

proof fn lemma_contains_concat<A>(a: Seq<A>, b: Seq<A>, p: A)
    ensures
        (a + b).contains(p) <==> a.contains(p) || b.contains(p),
{
    if a.contains(p) {
        let i = choose|i: int| 0 <= i < a.len() && a[i] == p;
        assert((a + b)[i] == p);
    }
    if b.contains(p) {
        let i = choose|i: int| 0 <= i < b.len() && b[i] == p;
        assert((a + b)[a.len() + i] == p);
    }
    if (a + b).contains(p) {
        let i = choose|i: int| 0 <= i < (a + b).len() && (a + b)[i] == p;
        if i < a.len() {
            assert(a[i] == p);
        } else {
            assert(b[i - a.len()] == p);
        }
    }
}

proof fn lemma_same_concat(
    a: Seq<(Seq<char>, Span)>,
    b: Seq<(Seq<char>, Span)>,
    c: Seq<(Seq<char>, Span)>,
    d: Seq<(Seq<char>, Span)>,
)
    requires
        same_variables(a, c),
        same_variables(b, d),
    ensures
        same_variables(a + b, c + d),
{
    assert forall|p: (Seq<char>, Span)| (a + b).contains(p) <==> (c + d).contains(p) by {
        lemma_contains_concat(a, b, p);
        lemma_contains_concat(c, d, p);
    }
}

proof fn lemma_vars_declaration<'ast, 'text>(d: &'ast Declaration<'text>)
    ensures
        token_variables(declarations_tokens(seq![*d])) == spans_of(node_variables(declaration_n(d))),
        same_variables(occ_variables(declaration_occ(*d)), node_variables(declaration_n(d))),
{
    assert(seq![*d].drop_last() =~= Seq::<Declaration>::empty());
    assert(seq![*d].last() == *d);
    assert(declarations_tokens(Seq::<Declaration>::empty()) =~= Seq::<Token>::empty());
    match d {
        Declaration::InputDeclaration(x) => {
            let e = Expression::VariableExpression(x.expression);
            lemma_vars_expression(&e);
            assert(Seq::<Token>::empty() + expression_tokens(e) =~= expression_tokens(e));
            lemma_nv_one(AnyNode::InputDeclaration(x));
            lemma_nv_concat(seq![AnyNode::InputDeclaration(x)], expression_n(&e));
            assert(Seq::<(Seq<char>, Span)>::empty() + node_variables(expression_n(&e)) =~= node_variables(
                expression_n(&e),
            ));
            let v = x.expression.variable;
            let nv = node_variables(expression_n(&e));
            let ov = occ_variables(declaration_occ(*d));
            lemma_occ_push(annotation_occ(x.expression.annotation), (v.name@, v.span, true));
            lemma_occ_concat(seq![crate::scope::reference(v)], annotation_occ(x.expression.annotation));
            let rest = occ_variables(annotation_occ(x.expression.annotation));
            assert(occ_variables(seq![crate::scope::reference(v)]) =~= seq![(v.name@, v.span)]);
            assert(nv == seq![(v.name@, v.span)] + rest);
            assert(ov == rest.push((v.name@, v.span)));
            assert forall|p: (Seq<char>, Span)| ov.contains(p) <==> nv.contains(p) by {
                assert(rest.push((v.name@, v.span)) =~= rest + seq![(v.name@, v.span)]);
                lemma_contains_concat(rest, seq![(v.name@, v.span)], p);
                lemma_contains_concat(seq![(v.name@, v.span)], rest, p);
            }
        },
        Declaration::LocalDeclaration(x) => {
            let e = x.expression;
            lemma_vars_expression(&x.expression);
            let v = x.variable;
            let n0 = seq![AnyNode::LocalDeclaration(x), AnyNode::Variable(&x.variable)];
            assert(n0 =~= seq![AnyNode::LocalDeclaration(x)] + seq![AnyNode::Variable(&x.variable)]);
            lemma_nv_concat(seq![AnyNode::LocalDeclaration(x)], seq![AnyNode::Variable(&x.variable)]);
            lemma_nv_one(AnyNode::LocalDeclaration(x));
            lemma_nv_one(AnyNode::Variable(&x.variable));
            lemma_nv_concat(n0, expression_n(&x.expression));
            let v0 = seq![(v.name@, v.span)];
            assert(node_variables(n0) =~= v0);
            let rest = node_variables(expression_n(&x.expression));
            let t0 = seq![(v.span, VARIABLE)];
            lemma_tv_concat(t0, expression_tokens(e));
            lemma_tv_one((v.span, VARIABLE));
            assert(Seq::<Token>::empty() + (t0 + expression_tokens(e)) =~= t0 + expression_tokens(e));
            lemma_spans_concat(v0, rest);
            assert(spans_of(v0) =~= seq![v.span]);
            lemma_occ_push(expression_occ(e), (v.name@, v.span, true));
            let ov = occ_variables(declaration_occ(*d));
            let nv = node_variables(declaration_n(d));
            assert(nv == v0 + rest);
            assert(ov == rest.push((v.name@, v.span)));
            assert forall|p: (Seq<char>, Span)| ov.contains(p) <==> nv.contains(p) by {
                assert(rest.push((v.name@, v.span)) =~= rest + v0);
                lemma_contains_concat(rest, v0, p);
                lemma_contains_concat(v0, rest, p);
            }
        },
    }
}

proof fn lemma_vars_declarations<'ast, 'text>(v: &'ast Vec<Declaration<'text>>, n: int)
    requires
        0 <= n <= v.len(),
    ensures
        token_variables(declarations_tokens(v@.take(n))) == spans_of(node_variables(declarations_n(v, n))),
        same_variables(occ_variables(declarations_occ(v@.take(n))), node_variables(declarations_n(v, n))),
    decreases n,
{
    if n == 0 {
        assert(v@.take(0) =~= Seq::<Declaration>::empty());
        assert(node_variables(Seq::<AnyNode>::empty()) =~= Seq::<(Seq<char>, Span)>::empty());
        assert(token_variables(Seq::<Token>::empty()) =~= Seq::<Span>::empty());
        assert(spans_of(Seq::<(Seq<char>, Span)>::empty()) =~= Seq::<Span>::empty());
        assert(occ_variables(Seq::<Occ>::empty()) =~= Seq::<(Seq<char>, Span)>::empty());
    } else {
        lemma_vars_declarations(v, n - 1);
        let x = &v[n - 1];
        assert(v@.take(n).drop_last() =~= v@.take(n - 1));
        assert(v@.take(n).last() == *x);
        lemma_vars_declaration(x);
        let last_t = match *x {
            Declaration::InputDeclaration(y) => expression_tokens(Expression::VariableExpression(y.expression)),
            Declaration::LocalDeclaration(y) => seq![(y.variable.span, VARIABLE)] + expression_tokens(y.expression),
        };
        assert(seq![*x].drop_last() =~= Seq::<Declaration>::empty());
        assert(seq![*x].last() == *x);
        assert(declarations_tokens(Seq::<Declaration>::empty()) =~= Seq::<Token>::empty());
        assert(declarations_tokens(seq![*x]) =~= Seq::<Token>::empty() + last_t);
        assert(Seq::<Token>::empty() + last_t =~= last_t);
        lemma_nv_concat(declarations_n(v, n - 1), declaration_n(x));
        lemma_tv_concat(declarations_tokens(v@.take(n - 1)), last_t);
        lemma_spans_concat(node_variables(declarations_n(v, n - 1)), node_variables(declaration_n(x)));
        lemma_occ_concat(declarations_occ(v@.take(n - 1)), declaration_occ(*x));
        lemma_same_concat(
            occ_variables(declarations_occ(v@.take(n - 1))),
            occ_variables(declaration_occ(*x)),
            node_variables(declarations_n(v, n - 1)),
            node_variables(declaration_n(x)),
        );
    }
}

proof fn lemma_vars_body<'ast, 'text>(b: &'ast ComplexMessageBody<'text>)
    ensures
        token_variables(match *b {
            ComplexMessageBody::QuotedPattern(q) => parts_tokens(q.pattern.parts@),
            ComplexMessageBody::Matcher(m) => matcher_tokens(m),
        }) == spans_of(node_variables(body_n(b))),
        occ_variables(crate::scope::body_occ(*b)) == node_variables(body_n(b)),
{
    match b {
        ComplexMessageBody::QuotedPattern(q) => lemma_vars_quoted_pattern(q),
        ComplexMessageBody::Matcher(m) => lemma_vars_matcher(m),
    }
}

/// The variables of a message's tree, in the order of a visit, are exactly
/// the variables that its tokens mark, and the same names and spans as the
/// occurrences that its scope records.
proof fn lemma_vars_message<'ast, 'text>(m: &'ast Message<'text>)
    ensures
        token_variables(message_tokens(*m)) == spans_of(node_variables(message_nodes(m))),
        same_variables(occ_variables(message_occ(*m)), node_variables(message_nodes(m))),
{
    match m {
        Message::Simple(p) => {
            lemma_vars_pattern(p);
        },
        Message::Complex(c) => {
            let nd = declarations_n(&c.declarations, c.declarations.len() as int);
            let nb = body_n(&c.body);
            lemma_vars_declarations(&c.declarations, c.declarations.len() as int);
            assert(c.declarations@.take(c.declarations.len() as int) =~= c.declarations@);
            lemma_vars_body(&c.body);
            lemma_nv_one(AnyNode::ComplexMessage(c));
            lemma_nv_concat(seq![AnyNode::ComplexMessage(c)] + nd, nb);
            lemma_nv_concat(seq![AnyNode::ComplexMessage(c)], nd);
            assert(Seq::<(Seq<char>, Span)>::empty() + node_variables(nd) =~= node_variables(nd));
            let bt = match c.body {
                ComplexMessageBody::QuotedPattern(q) => parts_tokens(q.pattern.parts@),
                ComplexMessageBody::Matcher(mm) => matcher_tokens(mm),
            };
            lemma_tv_concat(declarations_tokens(c.declarations@), bt);
            lemma_spans_concat(node_variables(nd), node_variables(nb));
            lemma_occ_concat(declarations_occ(c.declarations@), crate::scope::body_occ(c.body));
            lemma_same_concat(
                occ_variables(declarations_occ(c.declarations@)),
                occ_variables(crate::scope::body_occ(c.body)),
                node_variables(nd),
                node_variables(nb),
            );
        },
    }
    if let Message::Simple(p) = m {
        assert forall|q: (Seq<char>, Span)|
            occ_variables(message_occ(*m)).contains(q) <==> node_variables(message_nodes(m)).contains(q) by {}
    }
}


/// A name and span is among the variables of the nodes exactly when a
/// variable node has them.
proof fn lemma_nv_contains(ns: Nodes, p: (Seq<char>, Span))
    ensures
        node_variables(ns).contains(p) <==> exists|i: int|
            0 <= i < ns.len() && #[trigger] ns[i] is Variable && (ns[i]->Variable_0.name@, ns[i]->Variable_0.span)
                == p,
    decreases ns.len(),
{
    if ns.len() > 0 {
        let a = ns.drop_last();
        lemma_nv_contains(a, p);
        lemma_nv_concat(a, seq![ns.last()]);
        assert(a + seq![ns.last()] =~= ns);
        lemma_nv_one(ns.last());
        lemma_contains_concat(node_variables(a), node_variables(seq![ns.last()]), p);
        if exists|i: int|
            0 <= i < ns.len() && #[trigger] ns[i] is Variable && (ns[i]->Variable_0.name@, ns[i]->Variable_0.span)
                == p {
            let i = choose|i: int|
                0 <= i < ns.len() && #[trigger] ns[i] is Variable && (ns[i]->Variable_0.name@, ns[i]->Variable_0.span)
                    == p;
            if i < a.len() {
                assert(a[i] == ns[i]);
            } else {
                assert(node_variables(seq![ns.last()])[0] == p);
            }
        }
        if node_variables(a).contains(p) {
            let i = choose|i: int|
                0 <= i < a.len() && #[trigger] a[i] is Variable && (a[i]->Variable_0.name@, a[i]->Variable_0.span)
                    == p;
            assert(ns[i] == a[i]);
        }
        if node_variables(seq![ns.last()]).contains(p) {
            assert(ns[ns.len() - 1] == ns.last());
        }
    }
}

/// A span is among the variable spans of the tokens exactly when a token
/// marks a variable there.
proof fn lemma_tv_contains(ts: Seq<Token>, sp: Span)
    ensures
        token_variables(ts).contains(sp) <==> ts.contains((sp, VARIABLE)),
    decreases ts.len(),
{
    if ts.len() > 0 {
        let a = ts.drop_last();
        lemma_tv_contains(a, sp);
        lemma_tv_concat(a, seq![ts.last()]);
        assert(a + seq![ts.last()] =~= ts);
        lemma_tv_one(ts.last());
        lemma_contains_concat(token_variables(a), token_variables(seq![ts.last()]), sp);
        lemma_contains_concat(a, seq![ts.last()], (sp, VARIABLE));
        if seq![ts.last()].contains((sp, VARIABLE)) {
            assert(seq![ts.last()][0] == (sp, VARIABLE));
        }
        if token_variables(seq![ts.last()]).contains(sp) {
            assert(token_variables(seq![ts.last()])[0] == sp);
        }
        if ts.last() == (sp, VARIABLE) {
            assert(seq![ts.last()][0] == (sp, VARIABLE));
            assert(token_variables(seq![ts.last()])[0] == sp);
        }
    } else {
        assert(token_variables(ts) =~= Seq::<Span>::empty());
    }
}

/// The spans recorded for a name are those of its occurrences.
proof fn lemma_all_spans_contains(occ: Seq<Occ>, n: Seq<char>, sp: Span)
    ensures
        all_spans(occ, n).contains(sp) <==> occ_variables(occ).contains((n, sp)),
    decreases occ.len(),
{
    if occ.len() > 0 {
        let a = occ.drop_last();
        let x = occ.last();
        lemma_all_spans_contains(a, n, sp);
        lemma_occ_push(a, x);
        assert(a.push(x) =~= occ);
        assert(occ_variables(a).push((x.0, x.1)) =~= occ_variables(a) + seq![(x.0, x.1)]);
        lemma_contains_concat(occ_variables(a), seq![(x.0, x.1)], (n, sp));
        if x.0 == n {
            assert(all_spans(a, n).push(x.1) =~= all_spans(a, n) + seq![x.1]);
            lemma_contains_concat(all_spans(a, n), seq![x.1], sp);
            if seq![x.1].contains(sp) {
                assert(seq![x.1][0] == sp);
            }
        }
        if seq![(x.0, x.1)].contains((n, sp)) {
            assert(seq![(x.0, x.1)][0] == (n, sp));
        }
        if x.0 == n && x.1 == sp {
            assert(seq![(x.0, x.1)][0] == (n, sp));
            assert(seq![x.1][0] == sp);
        }
    } else {
        assert(all_spans(occ, n) =~= Seq::<Span>::empty());
        assert(occ_variables(occ) =~= Seq::<(Seq<char>, Span)>::empty());
    }
}

/// Semantic tokens mark every variable of a message: the spans of the
/// tokens of kind `VARIABLE` are the spans of the variable nodes of its
/// tree, one for one and in the order of a visit (a variable a `.local`
/// declaration declares, a selector, and a variable in a variant's pattern
/// each included), so each variable node has a variable token at its span.
pub proof fn law_semantic_tokens_mark_every_variable<'ast, 'text>(m: &'ast Message<'text>)
    ensures
        token_variables(message_tokens(*m)) == spans_of(node_variables(message_nodes(m))),
        forall|i: int|
            0 <= i < message_nodes(m).len() && #[trigger] message_nodes(m)[i] is Variable ==> message_tokens(
                *m,
            ).contains((message_nodes(m)[i]->Variable_0.span, VARIABLE)),
        forall|sp: Span|
            message_tokens(*m).contains((sp, VARIABLE)) ==> exists|i: int|
                0 <= i < message_nodes(m).len() && #[trigger] message_nodes(m)[i] is Variable
                    && message_nodes(m)[i]->Variable_0.span == sp,
{
    lemma_vars_message(m);
    let ns = message_nodes(m);
    let ts = message_tokens(*m);
    assert forall|i: int| 0 <= i < ns.len() && #[trigger] ns[i] is Variable implies ts.contains(
        (ns[i]->Variable_0.span, VARIABLE),
    ) by {
        let v = ns[i]->Variable_0;
        lemma_nv_contains(ns, (v.name@, v.span));
        let k = choose|k: int| 0 <= k < node_variables(ns).len() && node_variables(ns)[k] == (v.name@, v.span);
        assert(spans_of(node_variables(ns))[k] == v.span);
        assert(token_variables(ts).contains(v.span));
        lemma_tv_contains(ts, v.span);
    }
    assert forall|sp: Span| ts.contains((sp, VARIABLE)) implies exists|i: int|
        0 <= i < ns.len() && #[trigger] ns[i] is Variable && ns[i]->Variable_0.span == sp by {
        lemma_tv_contains(ts, sp);
        let k = choose|k: int| 0 <= k < token_variables(ts).len() && token_variables(ts)[k] == sp;
        let p = node_variables(ns)[k];
        assert(spans_of(node_variables(ns))[k] == p.1);
        assert(node_variables(ns).contains(p));
        lemma_nv_contains(ns, p);
    }
}

/// The scope of a message records every variable of its tree: a span is
/// among those recorded for a name exactly when a variable node of the
/// tree (a reference anywhere, in a variant's pattern too, or the variable
/// a declaration declares) has that name and span.
pub proof fn law_scope_records_every_variable<'ast, 'text>(m: &'ast Message<'text>, n: Seq<char>, sp: Span)
    ensures
        all_spans(message_occ(*m), n).contains(sp) <==> exists|i: int|
            0 <= i < message_nodes(m).len() && #[trigger] message_nodes(m)[i] is Variable
                && message_nodes(m)[i]->Variable_0.name@ == n && message_nodes(m)[i]->Variable_0.span == sp,
{
    lemma_vars_message(m);
    lemma_all_spans_contains(message_occ(*m), n, sp);
    lemma_nv_contains(message_nodes(m), (n, sp));
}

/// What `Scope::analyse` gives for a name holds a span exactly when a
/// variable node of the message has that name and span: `get_spans` finds
/// every variable of the tree, and nothing else.
pub proof fn law_analysed_scope_holds_every_variable<'ast, 'text>(
    m: &'ast Message<'text>,
    sc: crate::scope::Scope,
    n: Seq<char>,
    sp: Span,
)
    requires
        forall|x: Seq<char>| #[trigger] sc.usage(x) == crate::scope::usage_model(message_occ(*m), x),
    ensures
        (sc.usage(n) matches Some(u) && u.1.contains(sp)) <==> exists|i: int|
            0 <= i < message_nodes(m).len() && #[trigger] message_nodes(m)[i] is Variable
                && message_nodes(m)[i]->Variable_0.name@ == n && message_nodes(m)[i]->Variable_0.span == sp,
{
    law_scope_records_every_variable(m, n, sp);
    assert(sc.usage(n) == crate::scope::usage_model(message_occ(*m), n));
    if all_spans(message_occ(*m), n).contains(sp) {
        assert(all_spans(message_occ(*m), n).len() > 0);
    }
}


/// The token that a node of the tree stands for, where it stands for one
/// other than a string: a variable, the key of an option, the identifier of
/// a function, the `.match` keyword, or a number.
pub open spec fn node_mark(n: AnyNode) -> Option<Token> {
    match n {
        AnyNode::Variable(v) => Some((v.span, VARIABLE)),
        AnyNode::FnOrMarkupOption(o) => Some((o.key.spec_span(), PARAMETER)),
        AnyNode::Annotation(a) => match *a {
            Annotation::Function(f) => Some((f.id.spec_span(), FUNCTION)),
        },
        AnyNode::Matcher(m) => Some((keyword_span(*m), KEYWORD)),
        AnyNode::Number(x) => Some((x.spec_span(), NUMBER)),
        _ => None,
    }
}

/// The tokens that the nodes stand for, in order (see `node_mark`).
pub open spec fn node_marks(ns: Nodes) -> Seq<Token>
    decreases ns.len(),
{
    if ns.len() == 0 {
        seq![]
    } else {
        let prev = node_marks(ns.drop_last());
        match node_mark(ns.last()) {
            Some(t) => prev.push(t),
            None => prev,
        }
    }
}

/// The tokens other than strings, in order.
pub open spec fn unquoted_tokens(ts: Seq<Token>) -> Seq<Token>
    decreases ts.len(),
{
    if ts.len() == 0 {
        seq![]
    } else {
        let prev = unquoted_tokens(ts.drop_last());
        if ts.last().1 == STRING {
            prev
        } else {
            prev.push(ts.last())
        }
    }
}

proof fn lemma_nm_concat(a: Nodes, b: Nodes)
    ensures
        node_marks(a + b) == node_marks(a) + node_marks(b),
    decreases b.len(),
{
    if b.len() == 0 {
        assert(a + b =~= a);
        assert(node_marks(a) + seq![] =~= node_marks(a));
    } else {
        assert((a + b).drop_last() =~= a + b.drop_last());
        lemma_nm_concat(a, b.drop_last());
        match node_mark(b.last()) {
            Some(t) => {
                assert(node_marks(a) + node_marks(b) =~= (node_marks(a) + node_marks(b.drop_last())).push(t));
            },
            None => {},
        }
    }
}

proof fn lemma_uq_concat(a: Seq<Token>, b: Seq<Token>)
    ensures
        unquoted_tokens(a + b) == unquoted_tokens(a) + unquoted_tokens(b),
    decreases b.len(),
{
    if b.len() == 0 {
        assert(a + b =~= a);
        assert(unquoted_tokens(a) + seq![] =~= unquoted_tokens(a));
    } else {
        assert((a + b).drop_last() =~= a + b.drop_last());
        lemma_uq_concat(a, b.drop_last());
        if b.last().1 != STRING {
            assert(unquoted_tokens(a) + unquoted_tokens(b) =~= (unquoted_tokens(a) + unquoted_tokens(
                b.drop_last(),
            )).push(b.last()));
        }
    }
}

proof fn lemma_nm_one(n: AnyNode)
    ensures
        node_marks(seq![n]) == match node_mark(n) {
            Some(t) => seq![t],
            None => Seq::<Token>::empty(),
        },
{
    assert(seq![n].drop_last() =~= Seq::<AnyNode>::empty());
    assert(seq![n].last() == n);
    assert(node_marks(Seq::<AnyNode>::empty()) =~= Seq::<Token>::empty());
    if let Some(t) = node_mark(n) {
        assert(Seq::<Token>::empty().push(t) =~= seq![t]);
    }
}

proof fn lemma_uq_one(t: Token)
    ensures
        unquoted_tokens(seq![t]) == if t.1 == STRING {
            Seq::<Token>::empty()
        } else {
            seq![t]
        },
{
    assert(seq![t].drop_last() =~= Seq::<Token>::empty());
    assert(seq![t].last() == t);
    assert(unquoted_tokens(Seq::<Token>::empty()) =~= Seq::<Token>::empty());
    assert(Seq::<Token>::empty().push(t) =~= seq![t]);
}

proof fn lemma_nm_empty()
    ensures
        node_marks(Seq::<AnyNode>::empty()) == Seq::<Token>::empty(),
        unquoted_tokens(Seq::<Token>::empty()) == Seq::<Token>::empty(),
{
    assert(node_marks(Seq::<AnyNode>::empty()) =~= Seq::<Token>::empty());
    assert(unquoted_tokens(Seq::<Token>::empty()) =~= Seq::<Token>::empty());
}

proof fn lemma_marks_quoted_parts<'ast, 'text>(v: &'ast Vec<QuotedPart<'text>>, n: int)
    ensures
        node_marks(quoted_parts_n(v, n)) == Seq::<Token>::empty(),
    decreases n,
{
    lemma_nm_empty();
    if n <= 0 || n > v.len() {
    } else {
        lemma_marks_quoted_parts(v, n - 1);
        lemma_nm_concat(quoted_parts_n(v, n - 1), quoted_part_n(&v[n - 1]));
        match &v[n - 1] {
            QuotedPart::Text(t) => lemma_nm_one(AnyNode::Text(t)),
            QuotedPart::Escape(e) => lemma_nm_one(AnyNode::Escape(e)),
        }
        assert(Seq::<Token>::empty() + Seq::<Token>::empty() =~= Seq::<Token>::empty());
    }
}

proof fn lemma_marks_literal<'ast, 'text>(l: &'ast Literal<'text>)
    ensures
        node_marks(literal_n(l)) == unquoted_tokens(literal_tokens(*l)),
{
    lemma_nm_empty();
    lemma_uq_one(literal_tokens(*l)[0]);
    assert(literal_tokens(*l) =~= seq![literal_tokens(*l)[0]]);
    match l {
        Literal::Quoted(q) => {
            lemma_marks_quoted_parts(&q.parts, q.parts.len() as int);
            lemma_nm_concat(seq![AnyNode::Quoted(q)], quoted_parts_n(&q.parts, q.parts.len() as int));
            lemma_nm_one(AnyNode::Quoted(q));
            assert(Seq::<Token>::empty() + Seq::<Token>::empty() =~= Seq::<Token>::empty());
        },
        Literal::Text(t) => lemma_nm_one(AnyNode::Text(t)),
        Literal::Number(x) => lemma_nm_one(AnyNode::Number(x)),
    }
}

proof fn lemma_marks_lov<'ast, 'text>(v: &'ast LiteralOrVariable<'text>)
    ensures
        node_marks(lov_n(v)) == unquoted_tokens(lov_tokens(*v)),
{
    match v {
        LiteralOrVariable::Literal(l) => lemma_marks_literal(l),
        LiteralOrVariable::Variable(x) => {
            lemma_nm_one(AnyNode::Variable(x));
            lemma_uq_one((x.span, VARIABLE));
        },
    }
}

proof fn lemma_marks_options<'ast, 'text>(v: &'ast Vec<FnOrMarkupOption<'text>>, n: int)
    requires
        0 <= n <= v.len(),
    ensures
        unquoted_tokens(options_tokens(v@.take(n))) == node_marks(options_n(v, n)),
    decreases n,
{
    lemma_nm_empty();
    if n == 0 {
        assert(v@.take(0) =~= Seq::<FnOrMarkupOption>::empty());
    } else {
        lemma_marks_options(v, n - 1);
        let o = &v[n - 1];
        assert(v@.take(n).drop_last() =~= v@.take(n - 1));
        assert(v@.take(n).last() == *o);
        lemma_marks_lov(&o.value);
        let kt = (o.key.spec_span(), PARAMETER);
        let n0 = seq![AnyNode::FnOrMarkupOption(o), AnyNode::Identifier(&o.key)];
        assert(n0 =~= seq![AnyNode::FnOrMarkupOption(o)] + seq![AnyNode::Identifier(&o.key)]);
        lemma_nm_concat(seq![AnyNode::FnOrMarkupOption(o)], seq![AnyNode::Identifier(&o.key)]);
        lemma_nm_one(AnyNode::FnOrMarkupOption(o));
        lemma_nm_one(AnyNode::Identifier(&o.key));
        lemma_nm_concat(n0, lov_n(&o.value));
        lemma_nm_concat(options_n(v, n - 1), option_n(o));
        let pre = options_tokens(v@.take(n - 1));
        lemma_uq_concat(pre + seq![kt], lov_tokens(o.value));
        lemma_uq_concat(pre, seq![kt]);
        lemma_uq_one(kt);
        assert(seq![kt] + Seq::<Token>::empty() =~= seq![kt]);
        assert(node_marks(options_n(v, n)) =~= unquoted_tokens(pre) + seq![kt] + unquoted_tokens(
            lov_tokens(o.value),
        ));
    }
}

proof fn lemma_marks_annotation<'ast, 'text>(a: &'ast Annotation<'text>)
    ensures
        node_marks(annotation_n(a)) == unquoted_tokens(annotation_tokens(*a)),
{
    match a {
        Annotation::Function(f) => {
            lemma_marks_options(&f.options, f.options.len() as int);
            assert(f.options@.take(f.options.len() as int) =~= f.options@);
            let ft = (f.id.spec_span(), FUNCTION);
            let n0 = seq![AnyNode::Annotation(a), AnyNode::Identifier(&f.id)];
            assert(n0 =~= seq![AnyNode::Annotation(a)] + seq![AnyNode::Identifier(&f.id)]);
            lemma_nm_concat(seq![AnyNode::Annotation(a)], seq![AnyNode::Identifier(&f.id)]);
            lemma_nm_one(AnyNode::Annotation(a));
            lemma_nm_one(AnyNode::Identifier(&f.id));
            lemma_nm_concat(n0, options_n(&f.options, f.options.len() as int));
            lemma_uq_concat(seq![ft], options_tokens(f.options@));
            lemma_uq_one(ft);
            assert(seq![ft] + Seq::<Token>::empty() =~= seq![ft]);
        },
    }
}

proof fn lemma_marks_opt_annotation<'ast, 'text>(a: &'ast Option<Annotation<'text>>)
    ensures
        node_marks(opt_annotation_n(a)) == unquoted_tokens(opt_annotation_tokens(*a)),
{
    lemma_nm_empty();
    if let Some(x) = a {
        lemma_marks_annotation(x);
    }
}

proof fn lemma_marks_attributes<'ast, 'text>(v: &'ast Vec<Attribute<'text>>, n: int)
    requires
        0 <= n <= v.len(),
    ensures
        unquoted_tokens(attributes_tokens(v@.take(n))) == node_marks(attributes_n(v, n)),
    decreases n,
{
    lemma_nm_empty();
    if n == 0 {
        assert(v@.take(0) =~= Seq::<Attribute>::empty());
    } else {
        lemma_marks_attributes(v, n - 1);
        let a = &v[n - 1];
        assert(v@.take(n).drop_last() =~= v@.take(n - 1));
        assert(v@.take(n).last() == *a);
        let n0 = seq![AnyNode::Attribute(a), AnyNode::Identifier(&a.key)];
        assert(n0 =~= seq![AnyNode::Attribute(a)] + seq![AnyNode::Identifier(&a.key)]);
        lemma_nm_concat(seq![AnyNode::Attribute(a)], seq![AnyNode::Identifier(&a.key)]);
        lemma_nm_one(AnyNode::Attribute(a));
        lemma_nm_one(AnyNode::Identifier(&a.key));
        lemma_nm_concat(attributes_n(v, n - 1), attribute_n(a));
        assert(Seq::<Token>::empty() + Seq::<Token>::empty() =~= Seq::<Token>::empty());
        match &a.value {
            Some(l) => {
                lemma_marks_literal(l);
                lemma_nm_concat(n0, literal_n(l));
                lemma_uq_concat(attributes_tokens(v@.take(n - 1)), literal_tokens(*l));
                assert(Seq::<Token>::empty() + node_marks(literal_n(l)) =~= node_marks(literal_n(l)));
            },
            None => {
                assert(n0 + Seq::<AnyNode>::empty() =~= n0);
                lemma_uq_concat(attributes_tokens(v@.take(n - 1)), Seq::<Token>::empty());
                assert(node_marks(attributes_n(v, n - 1)) + Seq::<Token>::empty() =~= node_marks(
                    attributes_n(v, n - 1),
                ));
            },
        }
    }
}

proof fn lemma_marks_expression<'ast, 'text>(e: &'ast Expression<'text>)
    ensures
        node_marks(expression_n(e)) == unquoted_tokens(expression_tokens(*e)),
{
    let emp = Seq::<Token>::empty();
    match e {
        Expression::LiteralExpression(x) => {
            let n0 = seq![AnyNode::LiteralExpression(x)];
            let n1 = literal_n(&x.literal);
            let n2 = opt_annotation_n(&x.annotation);
            let n3 = attributes_n(&x.attributes, x.attributes.len() as int);
            lemma_marks_literal(&x.literal);
            lemma_marks_opt_annotation(&x.annotation);
            lemma_marks_attributes(&x.attributes, x.attributes.len() as int);
            assert(x.attributes@.take(x.attributes.len() as int) =~= x.attributes@);
            lemma_nm_one(AnyNode::LiteralExpression(x));
            lemma_nm_concat(n0 + n1 + n2, n3);
            lemma_nm_concat(n0 + n1, n2);
            lemma_nm_concat(n0, n1);
            let t1 = literal_tokens(x.literal);
            let t2 = opt_annotation_tokens(x.annotation);
            let t3 = attributes_tokens(x.attributes@);
            lemma_uq_concat(t1 + t2, t3);
            lemma_uq_concat(t1, t2);
            assert(emp + node_marks(n1) =~= node_marks(n1));
        },
        Expression::VariableExpression(x) => {
            let n0 = seq![AnyNode::VariableExpression(x), AnyNode::Variable(&x.variable)];
            let n2 = opt_annotation_n(&x.annotation);
            let n3 = attributes_n(&x.attributes, x.attributes.len() as int);
            lemma_marks_opt_annotation(&x.annotation);
            lemma_marks_attributes(&x.attributes, x.attributes.len() as int);
            assert(x.attributes@.take(x.attributes.len() as int) =~= x.attributes@);
            assert(n0 =~= seq![AnyNode::VariableExpression(x)] + seq![AnyNode::Variable(&x.variable)]);
            lemma_nm_concat(seq![AnyNode::VariableExpression(x)], seq![AnyNode::Variable(&x.variable)]);
            lemma_nm_one(AnyNode::VariableExpression(x));
            lemma_nm_one(AnyNode::Variable(&x.variable));
            lemma_nm_concat(n0 + n2, n3);
            lemma_nm_concat(n0, n2);
            let t0 = seq![(x.variable.span, VARIABLE)];
            let t2 = opt_annotation_tokens(x.annotation);
            let t3 = attributes_tokens(x.attributes@);
            lemma_uq_concat(t0 + t2, t3);
            lemma_uq_concat(t0, t2);
            lemma_uq_one((x.variable.span, VARIABLE));
            assert(emp + t0 =~= t0);
        },
        Expression::AnnotationExpression(x) => {
            let n0 = seq![AnyNode::AnnotationExpression(x)];
            let n1 = annotation_n(&x.annotation);
            let n3 = attributes_n(&x.attributes, x.attributes.len() as int);
            lemma_marks_annotation(&x.annotation);
            lemma_marks_attributes(&x.attributes, x.attributes.len() as int);
            assert(x.attributes@.take(x.attributes.len() as int) =~= x.attributes@);
            lemma_nm_one(AnyNode::AnnotationExpression(x));
            lemma_nm_concat(n0 + n1, n3);
            lemma_nm_concat(n0, n1);
            lemma_uq_concat(annotation_tokens(x.annotation), attributes_tokens(x.attributes@));
            assert(emp + node_marks(n1) =~= node_marks(n1));
        },
    }
}

proof fn lemma_marks_markup<'ast, 'text>(m: &'ast Markup<'text>)
    ensures
        node_marks(markup_n(m)) == unquoted_tokens(markup_tokens(*m)),
{
    let n0 = seq![AnyNode::Markup(m), AnyNode::Identifier(&m.id)];
    let n1 = options_n(&m.options, m.options.len() as int);
    let n2 = attributes_n(&m.attributes, m.attributes.len() as int);
    lemma_marks_options(&m.options, m.options.len() as int);
    lemma_marks_attributes(&m.attributes, m.attributes.len() as int);
    assert(m.options@.take(m.options.len() as int) =~= m.options@);
    assert(m.attributes@.take(m.attributes.len() as int) =~= m.attributes@);
    assert(n0 =~= seq![AnyNode::Markup(m)] + seq![AnyNode::Identifier(&m.id)]);
    lemma_nm_concat(seq![AnyNode::Markup(m)], seq![AnyNode::Identifier(&m.id)]);
    lemma_nm_one(AnyNode::Markup(m));
    lemma_nm_one(AnyNode::Identifier(&m.id));
    lemma_nm_concat(n0 + n1, n2);
    lemma_nm_concat(n0, n1);
    lemma_uq_concat(options_tokens(m.options@), attributes_tokens(m.attributes@));
    let emp = Seq::<Token>::empty();
    assert(emp + emp =~= emp);
    assert(emp + node_marks(n1) =~= node_marks(n1));
}

proof fn lemma_marks_parts<'ast, 'text>(v: &'ast Vec<PatternPart<'text>>, n: int)
    requires
        0 <= n <= v.len(),
    ensures
        unquoted_tokens(parts_tokens(v@.take(n))) == node_marks(parts_n(v, n)),
    decreases n,
{
    lemma_nm_empty();
    if n == 0 {
        assert(v@.take(0) =~= Seq::<PatternPart>::empty());
    } else {
        lemma_marks_parts(v, n - 1);
        let p = &v[n - 1];
        assert(v@.take(n).drop_last() =~= v@.take(n - 1));
        assert(v@.take(n).last() == *p);
        let last_t = match *p {
            PatternPart::Expression(e) => expression_tokens(e),
            PatternPart::Markup(m) => markup_tokens(m),
            _ => seq![],
        };
        lemma_nm_concat(parts_n(v, n - 1), part_n(p));
        lemma_uq_concat(parts_tokens(v@.take(n - 1)), last_t);
        match p {
            PatternPart::Text(t) => lemma_nm_one(AnyNode::Text(t)),
            PatternPart::Escape(x) => lemma_nm_one(AnyNode::Escape(x)),
            PatternPart::Expression(e) => lemma_marks_expression(e),
            PatternPart::Markup(m) => lemma_marks_markup(m),
        }
        assert(node_marks(parts_n(v, n - 1)) + Seq::<Token>::empty() =~= node_marks(parts_n(v, n - 1)));
    }
}

proof fn lemma_marks_quoted_pattern<'ast, 'text>(q: &'ast QuotedPattern<'text>)
    ensures
        node_marks(quoted_pattern_n(q)) == unquoted_tokens(parts_tokens(q.pattern.parts@)),
        node_marks(pattern_n(&q.pattern)) == unquoted_tokens(parts_tokens(q.pattern.parts@)),
{
    let p = &q.pattern;
    lemma_marks_parts(&p.parts, p.parts.len() as int);
    assert(p.parts@.take(p.parts.len() as int) =~= p.parts@);
    lemma_nm_concat(seq![AnyNode::Pattern(p)], parts_n(&p.parts, p.parts.len() as int));
    lemma_nm_one(AnyNode::Pattern(p));
    lemma_nm_concat(seq![AnyNode::QuotedPattern(q)], pattern_n(p));
    lemma_nm_one(AnyNode::QuotedPattern(q));
    let emp = Seq::<Token>::empty();
    assert(emp + node_marks(parts_n(&p.parts, p.parts.len() as int)) =~= node_marks(
        parts_n(&p.parts, p.parts.len() as int),
    ));
    assert(emp + node_marks(pattern_n(p)) =~= node_marks(pattern_n(p)));
}

proof fn lemma_marks_keys<'ast, 'text>(v: &'ast Vec<Key<'text>>, n: int)
    requires
        0 <= n <= v.len(),
    ensures
        unquoted_tokens(keys_tokens(v@.take(n))) == node_marks(keys_n(v, n)),
    decreases n,
{
    lemma_nm_empty();
    if n == 0 {
        assert(v@.take(0) =~= Seq::<Key>::empty());
    } else {
        lemma_marks_keys(v, n - 1);
        let k = &v[n - 1];
        assert(v@.take(n).drop_last() =~= v@.take(n - 1));
        assert(v@.take(n).last() == *k);
        lemma_nm_concat(keys_n(v, n - 1), key_n(k));
        match k {
            Key::Literal(l) => {
                lemma_marks_literal(l);
                lemma_uq_concat(keys_tokens(v@.take(n - 1)), literal_tokens(*l));
            },
            Key::Star(x) => {
                lemma_nm_one(AnyNode::Star(x));
                lemma_uq_concat(keys_tokens(v@.take(n - 1)), Seq::<Token>::empty());
                assert(node_marks(keys_n(v, n - 1)) + Seq::<Token>::empty() =~= node_marks(keys_n(v, n - 1)));
            },
        }
    }
}

proof fn lemma_marks_variants<'ast, 'text>(v: &'ast Vec<Variant<'text>>, n: int)
    requires
        0 <= n <= v.len(),
    ensures
        unquoted_tokens(variants_tokens(v@.take(n))) == node_marks(variants_n(v, n)),
    decreases n,
{
    lemma_nm_empty();
    if n == 0 {
        assert(v@.take(0) =~= Seq::<Variant>::empty());
    } else {
        lemma_marks_variants(v, n - 1);
        let x = &v[n - 1];
        assert(v@.take(n).drop_last() =~= v@.take(n - 1));
        assert(v@.take(n).last() == *x);
        lemma_marks_keys(&x.keys, x.keys.len() as int);
        assert(x.keys@.take(x.keys.len() as int) =~= x.keys@);
        lemma_marks_quoted_pattern(&x.pattern);
        let nk = keys_n(&x.keys, x.keys.len() as int);
        let nq = quoted_pattern_n(&x.pattern);
        lemma_nm_one(AnyNode::Variant(x));
        lemma_nm_concat(seq![AnyNode::Variant(x)] + nk, nq);
        lemma_nm_concat(seq![AnyNode::Variant(x)], nk);
        assert(Seq::<Token>::empty() + node_marks(nk) =~= node_marks(nk));
        lemma_nm_concat(variants_n(v, n - 1), variant_n(x));
        let pre = variants_tokens(v@.take(n - 1));
        lemma_uq_concat(pre + keys_tokens(x.keys@), parts_tokens(x.pattern.pattern.parts@));
        lemma_uq_concat(pre, keys_tokens(x.keys@));
    }
}

proof fn lemma_marks_selectors<'ast, 'text>(v: &'ast Vec<Variable<'text>>, n: int, t: Seq<Token>)
    requires
        0 <= n <= v.len(),
        t.len() == n,
        forall|i: int| 0 <= i < n ==> #[trigger] t[i] == (v@[i].span, VARIABLE),
    ensures
        unquoted_tokens(t) == node_marks(selectors_n(v, n)),
    decreases n,
{
    lemma_nm_empty();
    if n == 0 {
        assert(t =~= Seq::<Token>::empty());
    } else {
        lemma_marks_selectors(v, n - 1, t.drop_last());
        let x = &v[n - 1];
        lemma_nm_concat(selectors_n(v, n - 1), seq![AnyNode::Variable(x)]);
        lemma_nm_one(AnyNode::Variable(x));
        assert(t.last() == (x.span, VARIABLE));
        assert(node_marks(selectors_n(v, n - 1)).push((x.span, VARIABLE)) =~= node_marks(
            selectors_n(v, n - 1),
        ) + seq![(x.span, VARIABLE)]);
    }
}

proof fn lemma_marks_matcher<'ast, 'text>(m: &'ast Matcher<'text>)
    ensures
        node_marks(matcher_n(m)) == unquoted_tokens(matcher_tokens(*m)),
{
    let ns = selectors_n(&m.selectors, m.selectors.len() as int);
    let nv = variants_n(&m.variants, m.variants.len() as int);
    let ts = m.selectors@.map_values(|v: crate::ast::Variable| (v.span, VARIABLE));
    lemma_marks_selectors(&m.selectors, m.selectors.len() as int, ts);
    lemma_marks_variants(&m.variants, m.variants.len() as int);
    assert(m.variants@.take(m.variants.len() as int) =~= m.variants@);
    lemma_nm_one(AnyNode::Matcher(m));
    lemma_nm_concat(seq![AnyNode::Matcher(m)] + ns, nv);
    lemma_nm_concat(seq![AnyNode::Matcher(m)], ns);
    let k = seq![(keyword_span(*m), KEYWORD)];
    lemma_uq_concat(k + ts, variants_tokens(m.variants@));
    lemma_uq_concat(k, ts);
    lemma_uq_one(k[0]);
    assert(k =~= seq![k[0]]);
}

proof fn lemma_marks_declarations<'ast, 'text>(v: &'ast Vec<Declaration<'text>>, n: int)
    requires
        0 <= n <= v.len(),
    ensures
        unquoted_tokens(declarations_tokens(v@.take(n))) == node_marks(declarations_n(v, n)),
    decreases n,
{
    lemma_nm_empty();
    if n == 0 {
        assert(v@.take(0) =~= Seq::<Declaration>::empty());
    } else {
        lemma_marks_declarations(v, n - 1);
        let x = &v[n - 1];
        assert(v@.take(n).drop_last() =~= v@.take(n - 1));
        assert(v@.take(n).last() == *x);
        let last_t = match *x {
            Declaration::InputDeclaration(y) => expression_tokens(Expression::VariableExpression(y.expression)),
            Declaration::LocalDeclaration(y) => seq![(y.variable.span, VARIABLE)] + expression_tokens(y.expression),
        };
        lemma_nm_concat(declarations_n(v, n - 1), declaration_n(x));
        lemma_uq_concat(declarations_tokens(v@.take(n - 1)), last_t);
        match x {
            Declaration::InputDeclaration(d) => {
                let e = Expression::VariableExpression(d.expression);
                lemma_marks_expression(&e);
                lemma_nm_one(AnyNode::InputDeclaration(d));
                lemma_nm_concat(seq![AnyNode::InputDeclaration(d)], expression_n(&e));
                assert(Seq::<Token>::empty() + node_marks(expression_n(&e)) =~= node_marks(expression_n(&e)));
            },
            Declaration::LocalDeclaration(d) => {
                lemma_marks_expression(&d.expression);
                let n0 = seq![AnyNode::LocalDeclaration(d), AnyNode::Variable(&d.variable)];
                assert(n0 =~= seq![AnyNode::LocalDeclaration(d)] + seq![AnyNode::Variable(&d.variable)]);
                lemma_nm_concat(seq![AnyNode::LocalDeclaration(d)], seq![AnyNode::Variable(&d.variable)]);
                lemma_nm_one(AnyNode::LocalDeclaration(d));
                lemma_nm_one(AnyNode::Variable(&d.variable));
                lemma_nm_concat(n0, expression_n(&d.expression));
                let t0 = seq![(d.variable.span, VARIABLE)];
                lemma_uq_concat(t0, expression_tokens(d.expression));
                lemma_uq_one((d.variable.span, VARIABLE));
                assert(Seq::<Token>::empty() + t0 =~= t0);
            },
        }
    }
}

/// Semantic tokens stand for the tree: leaving out the tokens of strings,
/// the tokens of a message are, one for one and in the order of a visit of
/// its tree, its variables, the keys of its options, the identifiers of its
/// functions, its `.match` keyword, and its numbers, each at its span and
/// of its kind.
pub proof fn law_semantic_tokens_stand_for_the_tree<'ast, 'text>(m: &'ast Message<'text>)
    ensures
        unquoted_tokens(message_tokens(*m)) == node_marks(message_nodes(m)),
{
    lemma_nm_empty();
    match m {
        Message::Simple(p) => {
            lemma_marks_parts(&p.parts, p.parts.len() as int);
            assert(p.parts@.take(p.parts.len() as int) =~= p.parts@);
            lemma_nm_concat(seq![AnyNode::Pattern(p)], parts_n(&p.parts, p.parts.len() as int));
            lemma_nm_one(AnyNode::Pattern(p));
            assert(Seq::<Token>::empty() + node_marks(parts_n(&p.parts, p.parts.len() as int)) =~= node_marks(
                parts_n(&p.parts, p.parts.len() as int),
            ));
        },
        Message::Complex(c) => {
            let nd = declarations_n(&c.declarations, c.declarations.len() as int);
            let nb = body_n(&c.body);
            lemma_marks_declarations(&c.declarations, c.declarations.len() as int);
            assert(c.declarations@.take(c.declarations.len() as int) =~= c.declarations@);
            match &c.body {
                ComplexMessageBody::QuotedPattern(q) => lemma_marks_quoted_pattern(q),
                ComplexMessageBody::Matcher(mm) => lemma_marks_matcher(mm),
            }
            lemma_nm_one(AnyNode::ComplexMessage(c));
            lemma_nm_concat(seq![AnyNode::ComplexMessage(c)] + nd, nb);
            lemma_nm_concat(seq![AnyNode::ComplexMessage(c)], nd);
            assert(Seq::<Token>::empty() + node_marks(nd) =~= node_marks(nd));
            let bt = match c.body {
                ComplexMessageBody::QuotedPattern(q) => parts_tokens(q.pattern.parts@),
                ComplexMessageBody::Matcher(mm) => matcher_tokens(mm),
            };
            lemma_uq_concat(declarations_tokens(c.declarations@), bt);
        },
    }
}


/// The name and span of the variable a declaration declares.
pub open spec fn declared_variable(d: Declaration) -> (Seq<char>, Span) {
    match d {
        Declaration::InputDeclaration(x) => (x.expression.variable.name@, x.expression.variable.span),
        Declaration::LocalDeclaration(x) => (x.variable.name@, x.variable.span),
    }
}

/// The span of the first of the declarations that declares `n`, if any.
pub open spec fn first_declaring(ds: Seq<Declaration>, n: Seq<char>) -> Option<Span>
    decreases ds.len(),
{
    if ds.len() == 0 {
        None
    } else if declared_variable(ds[0]).0 == n {
        Some(declared_variable(ds[0]).1)
    } else {
        first_declaring(ds.drop_first(), n)
    }
}

/// None of the occurrences declares.
pub open spec fn all_references(o: Seq<Occ>) -> bool {
    forall|k: int| 0 <= k < o.len() ==> !(#[trigger] o[k]).2
}

proof fn lemma_refs_concat(a: Seq<Occ>, b: Seq<Occ>)
    requires
        all_references(a),
        all_references(b),
    ensures
        all_references(a + b),
{
    assert forall|k: int| 0 <= k < (a + b).len() implies !(#[trigger] (a + b)[k]).2 by {
        if k < a.len() {
            assert((a + b)[k] == a[k]);
        } else {
            assert((a + b)[k] == b[k - a.len()]);
        }
    }
}

proof fn lemma_first_declaration_concat(a: Seq<Occ>, b: Seq<Occ>, n: Seq<char>)
    ensures
        first_declaration(a + b, n) == match first_declaration(a, n) {
            Some(x) => Some(x),
            None => first_declaration(b, n),
        },
    decreases b.len(),
{
    if b.len() == 0 {
        assert(a + b =~= a);
        assert(first_declaration(b, n) == None::<Span>);
    } else {
        assert((a + b).drop_last() =~= a + b.drop_last());
        lemma_first_declaration_concat(a, b.drop_last(), n);
    }
}

proof fn lemma_first_declaration_refs(o: Seq<Occ>, n: Seq<char>)
    requires
        all_references(o),
    ensures
        first_declaration(o, n) is None,
    decreases o.len(),
{
    if o.len() > 0 {
        assert(all_references(o.drop_last()));
        lemma_first_declaration_refs(o.drop_last(), n);
        assert(!o[o.len() - 1].2);
    }
}

proof fn lemma_refs_options(opts: Seq<FnOrMarkupOption>)
    ensures
        all_references(options_occ(opts)),
    decreases opts.len(),
{
    if opts.len() > 0 {
        lemma_refs_options(opts.drop_last());
    }
}

proof fn lemma_refs_expression(e: Expression)
    ensures
        all_references(expression_occ(e)),
        all_references(annotation_occ(crate::parser::expression_annotation(e))),
{
    match crate::parser::expression_annotation(e) {
        Some(Annotation::Function(f)) => lemma_refs_options(f.options@),
        None => {},
    }
    if let Expression::VariableExpression(x) = e {
        lemma_refs_concat(seq![crate::scope::reference(x.variable)], annotation_occ(x.annotation));
    }
}

proof fn lemma_refs_parts(parts: Seq<PatternPart>)
    ensures
        all_references(parts_occ(parts)),
    decreases parts.len(),
{
    if parts.len() > 0 {
        lemma_refs_parts(parts.drop_last());
        match parts.last() {
            PatternPart::Expression(e) => lemma_refs_expression(e),
            PatternPart::Markup(m) => lemma_refs_options(m.options@),
            _ => {},
        }
        lemma_refs_concat(parts_occ(parts.drop_last()), part_occ(parts.last()));
    }
}

proof fn lemma_refs_body(b: ComplexMessageBody)
    ensures
        all_references(body_occ(b)),
{
    match b {
        ComplexMessageBody::QuotedPattern(q) => lemma_refs_parts(q.pattern.parts@),
        ComplexMessageBody::Matcher(m) => {
            lemma_refs_selectors(m.selectors@);
            lemma_refs_variants(m.variants@);
            lemma_refs_concat(selectors_occ(m.selectors@), variants_occ(m.variants@));
        },
    }
}

proof fn lemma_refs_selectors(vs: Seq<Variable>)
    ensures
        all_references(selectors_occ(vs)),
    decreases vs.len(),
{
    if vs.len() > 0 {
        lemma_refs_selectors(vs.drop_last());
    }
}

proof fn lemma_refs_variants(vs: Seq<Variant>)
    ensures
        all_references(variants_occ(vs)),
    decreases vs.len(),
{
    if vs.len() > 0 {
        lemma_refs_variants(vs.drop_last());
        lemma_refs_parts(vs.last().pattern.pattern.parts@);
        lemma_refs_concat(variants_occ(vs.drop_last()), parts_occ(vs.last().pattern.pattern.parts@));
    }
}

proof fn lemma_first_declaration_declaration(d: Declaration, n: Seq<char>)
    ensures
        first_declaration(declaration_occ(d), n) == if declared_variable(d).0 == n {
            Some(declared_variable(d).1)
        } else {
            None
        },
{
    let refs = match d {
        Declaration::InputDeclaration(x) => annotation_occ(x.expression.annotation),
        Declaration::LocalDeclaration(x) => expression_occ(x.expression),
    };
    match d {
        Declaration::InputDeclaration(x) => lemma_refs_expression(Expression::VariableExpression(x.expression)),
        Declaration::LocalDeclaration(x) => lemma_refs_expression(x.expression),
    }
    lemma_first_declaration_refs(refs, n);
    assert(declaration_occ(d).drop_last() =~= refs);
}

proof fn lemma_first_declaration_declarations(ds: Seq<Declaration>, n: Seq<char>)
    ensures
        first_declaration(declarations_occ(ds), n) == first_declaring(ds, n),
    decreases ds.len(),
{
    if ds.len() > 0 {
        let a = ds.drop_last();
        lemma_first_declaration_declarations(a, n);
        lemma_first_declaration_concat(declarations_occ(a), declaration_occ(ds.last()), n);
        lemma_first_declaration_declaration(ds.last(), n);
        lemma_first_declaring_push(a, ds.last(), n);
        assert(a.push(ds.last()) =~= ds);
    } else {
        assert(first_declaration(declarations_occ(ds), n) == None::<Span>);
    }
}

proof fn lemma_first_declaring_push(ds: Seq<Declaration>, d: Declaration, n: Seq<char>)
    ensures
        first_declaring(ds.push(d), n) == match first_declaring(ds, n) {
            Some(x) => Some(x),
            None => if declared_variable(d).0 == n {
                Some(declared_variable(d).1)
            } else {
                None
            },
        },
    decreases ds.len(),
{
    if ds.len() > 0 {
        assert(ds.push(d).drop_first() =~= ds.drop_first().push(d));
        assert(ds.push(d)[0] == ds[0]);
        lemma_first_declaring_push(ds.drop_first(), d, n);
    } else {
        assert(ds.push(d).drop_first() =~= Seq::<Declaration>::empty());
        assert(ds.push(d)[0] == d);
        assert(first_declaring(Seq::<Declaration>::empty(), n) == None::<Span>);
        assert(first_declaring(ds, n) == None::<Span>);
    }
}

/// The scope of a message finds each variable's declaration: what it
/// records as the declaration of a name is the span of the variable that
/// the first declaration of that name declares (`.input` or `.local`), and
/// nothing where no declaration declares it; a reference never declares.
pub proof fn law_scope_declarations_are_the_declared_variables(m: Message, n: Seq<char>)
    ensures
        first_declaration(message_occ(m), n) == match m {
            Message::Complex(c) => first_declaring(c.declarations@, n),
            Message::Simple(_) => None,
        },
{
    match m {
        Message::Simple(p) => {
            lemma_refs_parts(p.parts@);
            lemma_first_declaration_refs(parts_occ(p.parts@), n);
        },
        Message::Complex(c) => {
            lemma_first_declaration_declarations(c.declarations@, n);
            lemma_refs_body(c.body);
            lemma_first_declaration_refs(body_occ(c.body), n);
            lemma_first_declaration_concat(declarations_occ(c.declarations@), body_occ(c.body), n);
        },
    }
}


proof fn lemma_first_declaration_none(o: Seq<Occ>, n: Seq<char>)
    requires
        forall|k: int| 0 <= k < o.len() ==> !((#[trigger] o[k]).2 && o[k].0 == n),
    ensures
        first_declaration(o, n) is None,
    decreases o.len(),
{
    if o.len() > 0 {
        lemma_first_declaration_none(o.drop_last(), n);
        assert(!(o[o.len() - 1].2 && o[o.len() - 1].0 == n));
    }
}

proof fn lemma_first_declaration_at(o: Seq<Occ>, n: Seq<char>, f: int)
    requires
        0 <= f < o.len(),
        o[f].2,
        o[f].0 == n,
        forall|k: int| 0 <= k < f ==> !((#[trigger] o[k]).2 && o[k].0 == n),
    ensures
        first_declaration(o, n) == Some(o[f].1),
    decreases o.len(),
{
    if f < o.len() - 1 {
        lemma_first_declaration_at(o.drop_last(), n, f);
    } else {
        lemma_first_declaration_none(o.drop_last(), n);
    }
}

proof fn lemma_scope_diagnostics_prefix(o: Seq<Occ>, k: int, x: ScopeDiagnosticModel)
    requires
        0 <= k <= o.len(),
        scope_diagnostics(o.take(k)).contains(x),
    ensures
        scope_diagnostics(o).contains(x),
    decreases o.len() - k,
{
    if k < o.len() {
        let t = o.take(k + 1);
        assert(t.drop_last() =~= o.take(k));
        let prev = scope_diagnostics(o.take(k));
        let i = choose|i: int| 0 <= i < prev.len() && prev[i] == x;
        assert(scope_diagnostics(t)[i] == x);
        lemma_scope_diagnostics_prefix(o, k + 1, x);
    } else {
        assert(o.take(k) =~= o);
    }
}

/// The analysis of a message's variables reports what is wrong with their
/// order: where the first declaration of a name comes after references to
/// it, each of them is a use before that declaration; and each declaration
/// of a name after its first is a duplicate of the first.
pub proof fn law_scope_reports_order_of_declarations(o: Seq<Occ>, i: int, j: int)
    requires
        0 <= i < j < o.len(),
        o[j].2,
        o[i].0 == o[j].0,
        forall|k: int| 0 <= k < i ==> !((#[trigger] o[k]).2 && o[k].0 == o[j].0),
    ensures
        !o[i].2 && (forall|k: int| 0 <= k < j ==> !((#[trigger] o[k]).2 && o[k].0 == o[j].0))
            ==> scope_diagnostics(o).contains((false, o[j].0, o[j].1, o[i].1)),
        o[i].2 ==> scope_diagnostics(o).contains((true, o[j].0, o[i].1, o[j].1)),
{
    let n = o[j].0;
    let t = o.take(j + 1);
    let prev = o.take(j);
    assert(t.drop_last() =~= prev);
    assert(t.last() == o[j]);
    if o[i].2 {
        lemma_first_declaration_at(prev, n, i);
        let d = scope_diagnostics(t);
        assert(d.last() == (true, n, o[i].1, o[j].1));
        lemma_scope_diagnostics_prefix(o, j + 1, (true, n, o[i].1, o[j].1));
    } else if forall|k: int| 0 <= k < j ==> !((#[trigger] o[k]).2 && o[k].0 == o[j].0) {
        lemma_first_declaration_none(prev, n);
        lemma_all_spans_contains(prev, n, o[i].1);
        assert(occ_variables(prev)[i] == (n, o[i].1));
        assert(all_spans(prev, n).contains(o[i].1));
        let sp = all_spans(prev, n);
        let q = choose|q: int| 0 <= q < sp.len() && sp[q] == o[i].1;
        let mapped = sp.map_values(|r: Span| (false, n, o[j].1, r));
        let pd = scope_diagnostics(prev);
        assert(scope_diagnostics(t) == pd + mapped);
        assert((pd + mapped)[pd.len() + q] == (false, n, o[j].1, o[i].1));
        lemma_scope_diagnostics_prefix(o, j + 1, (false, n, o[j].1, o[i].1));
    }
}

} // verus!
