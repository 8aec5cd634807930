//! Which variables a message declares and uses: the spans of each one, its
//! declaration, and the errors of declaring a variable twice or using it
//! before its declaration.
use vstd::prelude::*;

use crate::ast::Annotation;
use crate::ast::ComplexMessageBody;
use crate::ast::Declaration;
use crate::ast::Expression;
use crate::ast::FnOrMarkupOption;
use crate::ast::LiteralOrVariable;
use crate::ast::Message;
use crate::ast::Pattern;
use crate::ast::PatternPart;
use crate::ast::Variable;
use crate::ast::Variant;
use crate::ast::span_in;
use crate::diagnostic::Diagnostic;
use crate::strings::str_eq;
use crate::text::Span;

verus! {

/// A variable where it stands in a message: its name, its span, and whether
/// it is declared there rather than referred to.
#[derive(Debug, Clone, Copy)]
pub struct VariableOccurrence<'text> {
    pub name: &'text str,
    pub span: Span,
    pub declares: bool,
}

/// An occurrence as a value: name, span, and whether it declares.
pub type Occ = (Seq<char>, Span, bool);

impl<'text> VariableOccurrence<'text> {
    pub open spec fn model(&self) -> Occ {
        (self.name@, self.span, self.declares)
    }
}

/// The occurrences, as values.
pub open spec fn occ_models(v: Seq<VariableOccurrence>) -> Seq<Occ> {
    v.map_values(|o: VariableOccurrence| o.model())
}

/// A reference to `v`.
pub open spec fn reference(v: Variable) -> Occ {
    (v.name@, v.span, false)
}

/// The references in the values of the options, in order.
pub open spec fn options_occ(options: Seq<FnOrMarkupOption>) -> Seq<Occ>
    decreases options.len(),
{
    if options.len() == 0 {
        seq![]
    } else {
        let prev = options_occ(options.drop_last());
        match options.last().value {
            LiteralOrVariable::Variable(v) => prev.push(reference(v)),
            LiteralOrVariable::Literal(_) => prev,
        }
    }
}

pub open spec fn annotation_occ(a: Option<Annotation>) -> Seq<Occ> {
    match a {
        Some(Annotation::Function(f)) => options_occ(f.options@),
        None => seq![],
    }
}

/// The references of an expression: its variable, then those of its
/// annotation.
pub open spec fn expression_occ(e: Expression) -> Seq<Occ> {
    match e {
        Expression::LiteralExpression(x) => annotation_occ(x.annotation),
        Expression::VariableExpression(x) => seq![reference(x.variable)] + annotation_occ(
            x.annotation,
        ),
        Expression::AnnotationExpression(x) => annotation_occ(Some(x.annotation)),
    }
}

pub open spec fn part_occ(p: PatternPart) -> Seq<Occ> {
    match p {
        PatternPart::Expression(e) => expression_occ(e),
        PatternPart::Markup(m) => options_occ(m.options@),
        _ => seq![],
    }
}

/// The references of a pattern, part by part.
pub open spec fn parts_occ(parts: Seq<PatternPart>) -> Seq<Occ>
    decreases parts.len(),
{
    if parts.len() == 0 {
        seq![]
    } else {
        parts_occ(parts.drop_last()) + part_occ(parts.last())
    }
}

/// The occurrences of a declaration: the references of its value, then the
/// variable it declares.
pub open spec fn declaration_occ(d: Declaration) -> Seq<Occ> {
    match d {
        Declaration::InputDeclaration(x) => annotation_occ(x.expression.annotation).push(
            (x.expression.variable.name@, x.expression.variable.span, true),
        ),
        Declaration::LocalDeclaration(x) => expression_occ(x.expression).push(
            (x.variable.name@, x.variable.span, true),
        ),
    }
}

pub open spec fn declarations_occ(ds: Seq<Declaration>) -> Seq<Occ>
    decreases ds.len(),
{
    if ds.len() == 0 {
        seq![]
    } else {
        declarations_occ(ds.drop_last()) + declaration_occ(ds.last())
    }
}

pub open spec fn selectors_occ(vs: Seq<Variable>) -> Seq<Occ>
    decreases vs.len(),
{
    if vs.len() == 0 {
        seq![]
    } else {
        selectors_occ(vs.drop_last()).push(reference(vs.last()))
    }
}

pub open spec fn variants_occ(vs: Seq<Variant>) -> Seq<Occ>
    decreases vs.len(),
{
    if vs.len() == 0 {
        seq![]
    } else {
        variants_occ(vs.drop_last()) + parts_occ(vs.last().pattern.pattern.parts@)
    }
}

pub open spec fn body_occ(b: ComplexMessageBody) -> Seq<Occ> {
    match b {
        ComplexMessageBody::QuotedPattern(q) => parts_occ(q.pattern.parts@),
        ComplexMessageBody::Matcher(m) => selectors_occ(m.selectors@) + variants_occ(
            m.variants@,
        ),
    }
}

/// The occurrences of variables in a message, in the order in which they
/// stand, but that the variable a declaration declares comes after the
/// references in its value.
pub open spec fn message_occ(m: Message) -> Seq<Occ> {
    match m {
        Message::Simple(p) => parts_occ(p.parts@),
        Message::Complex(c) => declarations_occ(c.declarations@) + body_occ(c.body),
    }
}

fn push_occ<'text>(out: &mut Vec<VariableOccurrence<'text>>, o: VariableOccurrence<'text>)
    ensures
        occ_models(final(out)@) == occ_models(old(out)@).push(o.model()),
{
    out.push(o);
    assert(occ_models(out@) =~= occ_models(old(out)@).push(o.model()));
}

fn push_reference<'text>(out: &mut Vec<VariableOccurrence<'text>>, v: &Variable<'text>)
    ensures
        occ_models(final(out)@) == occ_models(old(out)@).push(reference(*v)),
{
    push_occ(out, VariableOccurrence { name: v.name, span: v.span, declares: false });
}

fn push_options<'text>(
    out: &mut Vec<VariableOccurrence<'text>>,
    options: &Vec<FnOrMarkupOption<'text>>,
)
    ensures
        occ_models(final(out)@) == occ_models(old(out)@) + options_occ(options@),
{
    let ghost start = occ_models(out@);
    let mut i: usize = 0;
    while i < options.len()
        invariant
            i <= options.len(),
            occ_models(out@) == start + options_occ(options@.take(i as int)),
        decreases options.len() - i,
    {
        assert(options@.take(i + 1).drop_last() =~= options@.take(i as int));
        if let LiteralOrVariable::Variable(v) = &options[i].value {
            push_reference(out, v);
        }
        i = i + 1;
        assert(occ_models(out@) =~= start + options_occ(options@.take(i as int)));
    }
    assert(options@.take(options.len() as int) =~= options@);
}

fn push_annotation<'text>(
    out: &mut Vec<VariableOccurrence<'text>>,
    annotation: &Option<Annotation<'text>>,
)
    ensures
        occ_models(final(out)@) == occ_models(old(out)@) + annotation_occ(*annotation),
{
    match annotation {
        Some(Annotation::Function(f)) => push_options(out, &f.options),
        None => {
            assert(occ_models(out@) =~= occ_models(out@) + Seq::<Occ>::empty());
        },
    }
}

fn push_expression<'text>(out: &mut Vec<VariableOccurrence<'text>>, e: &Expression<'text>)
    ensures
        occ_models(final(out)@) == occ_models(old(out)@) + expression_occ(*e),
{
    let ghost start = occ_models(out@);
    match e {
        Expression::LiteralExpression(x) => push_annotation(out, &x.annotation),
        Expression::VariableExpression(x) => {
            push_reference(out, &x.variable);
            push_annotation(out, &x.annotation);
            assert(occ_models(out@) =~= start + expression_occ(*e));
        },
        Expression::AnnotationExpression(x) => {
            match &x.annotation {
                Annotation::Function(f) => push_options(out, &f.options),
            }
        },
    }
}

fn push_parts<'text>(out: &mut Vec<VariableOccurrence<'text>>, parts: &Vec<PatternPart<'text>>)
    ensures
        occ_models(final(out)@) == occ_models(old(out)@) + parts_occ(parts@),
{
    let ghost start = occ_models(out@);
    let mut i: usize = 0;
    while i < parts.len()
        invariant
            i <= parts.len(),
            occ_models(out@) == start + parts_occ(parts@.take(i as int)),
        decreases parts.len() - i,
    {
        assert(parts@.take(i + 1).drop_last() =~= parts@.take(i as int));
        let ghost before = occ_models(out@);
        match &parts[i] {
            PatternPart::Expression(e) => push_expression(out, e),
            PatternPart::Markup(m) => push_options(out, &m.options),
            _ => {},
        }
        assert(occ_models(out@) =~= before + part_occ(parts@[i as int]));
        i = i + 1;
        assert(occ_models(out@) =~= start + parts_occ(parts@.take(i as int)));
    }
    assert(parts@.take(parts.len() as int) =~= parts@);
}

fn push_declarations<'text>(
    out: &mut Vec<VariableOccurrence<'text>>,
    declarations: &Vec<Declaration<'text>>,
)
    ensures
        occ_models(final(out)@) == occ_models(old(out)@) + declarations_occ(declarations@),
{
    let ghost start = occ_models(out@);
    let mut i: usize = 0;
    while i < declarations.len()
        invariant
            i <= declarations.len(),
            occ_models(out@) == start + declarations_occ(declarations@.take(i as int)),
        decreases declarations.len() - i,
    {
        assert(declarations@.take(i + 1).drop_last() =~= declarations@.take(i as int));
        let ghost before = occ_models(out@);
        match &declarations[i] {
            Declaration::InputDeclaration(x) => {
                push_annotation(out, &x.expression.annotation);
                let v = &x.expression.variable;
                push_occ(out, VariableOccurrence { name: v.name, span: v.span, declares: true });
            },
            Declaration::LocalDeclaration(x) => {
                push_expression(out, &x.expression);
                let v = &x.variable;
                push_occ(out, VariableOccurrence { name: v.name, span: v.span, declares: true });
            },
        }
        assert(occ_models(out@) =~= before + declaration_occ(declarations@[i as int]));
        i = i + 1;
        assert(occ_models(out@) =~= start + declarations_occ(declarations@.take(i as int)));
    }
    assert(declarations@.take(declarations.len() as int) =~= declarations@);
}

fn push_body<'text>(out: &mut Vec<VariableOccurrence<'text>>, body: &ComplexMessageBody<'text>)
    ensures
        occ_models(final(out)@) == occ_models(old(out)@) + body_occ(*body),
{
    let ghost start = occ_models(out@);
    match body {
        ComplexMessageBody::QuotedPattern(q) => push_parts(out, &q.pattern.parts),
        ComplexMessageBody::Matcher(m) => {
            let mut i: usize = 0;
            while i < m.selectors.len()
                invariant
                    i <= m.selectors.len(),
                    occ_models(out@) == start + selectors_occ(m.selectors@.take(i as int)),
                decreases m.selectors.len() - i,
            {
                assert(m.selectors@.take(i + 1).drop_last() =~= m.selectors@.take(i as int));
                push_reference(out, &m.selectors[i]);
                i = i + 1;
                assert(occ_models(out@) =~= start + selectors_occ(m.selectors@.take(i as int)));
            }
            assert(m.selectors@.take(m.selectors.len() as int) =~= m.selectors@);
            let ghost mid = occ_models(out@);
            let mut j: usize = 0;
            while j < m.variants.len()
                invariant
                    j <= m.variants.len(),
                    occ_models(out@) == mid + variants_occ(m.variants@.take(j as int)),
                decreases m.variants.len() - j,
            {
                assert(m.variants@.take(j + 1).drop_last() =~= m.variants@.take(j as int));
                push_parts(out, &m.variants[j].pattern.pattern.parts);
                j = j + 1;
                assert(occ_models(out@) =~= mid + variants_occ(m.variants@.take(j as int)));
            }
            assert(m.variants@.take(m.variants.len() as int) =~= m.variants@);
            assert(occ_models(out@) =~= start + body_occ(*body));
        },
    }
}

/// The occurrences of variables in a message, in order.
pub fn message_occurrences<'text>(m: &Message<'text>) -> (r: Vec<VariableOccurrence<'text>>)
    ensures
        occ_models(r@) == message_occ(*m),
{
    let mut out: Vec<VariableOccurrence<'text>> = Vec::new();
    assert(occ_models(out@) =~= Seq::<Occ>::empty());
    match m {
        Message::Simple(p) => {
            push_parts(&mut out, &p.parts);
            assert(occ_models(out@) =~= message_occ(*m));
        },
        Message::Complex(c) => {
            push_declarations(&mut out, &c.declarations);
            push_body(&mut out, &c.body);
            assert(occ_models(out@) =~= message_occ(*m));
        },
    }
    out
}

/// The spans of the occurrences of the variable named `n`, in order.
pub open spec fn all_spans(occ: Seq<Occ>, n: Seq<char>) -> Seq<Span>
    decreases occ.len(),
{
    if occ.len() == 0 {
        seq![]
    } else {
        let prev = all_spans(occ.drop_last(), n);
        if occ.last().0 == n {
            prev.push(occ.last().1)
        } else {
            prev
        }
    }
}

/// The span of the first declaration of the variable named `n`, if any.
pub open spec fn first_declaration(occ: Seq<Occ>, n: Seq<char>) -> Option<Span>
    decreases occ.len(),
{
    if occ.len() == 0 {
        None
    } else {
        let prev = first_declaration(occ.drop_last(), n);
        if prev is None && occ.last().0 == n && occ.last().2 {
            Some(occ.last().1)
        } else {
            prev
        }
    }
}

/// A diagnostic of the analysis, as a value: whether it is a duplicate
/// declaration (else a use before declaration), the name, and its two
/// spans (the declaration first).
pub type ScopeDiagnosticModel = (bool, Seq<char>, Span, Span);

/// The diagnostics of the occurrences: a declaration after another one of
/// the same name is a duplicate; a first declaration after references of
/// its name makes each of them a use before declaration.
pub open spec fn scope_diagnostics(occ: Seq<Occ>) -> Seq<ScopeDiagnosticModel>
    decreases occ.len(),
{
    if occ.len() == 0 {
        seq![]
    } else {
        let prev_occ = occ.drop_last();
        let e = occ.last();
        let prev = scope_diagnostics(prev_occ);
        if !e.2 {
            prev
        } else {
            match first_declaration(prev_occ, e.0) {
                Some(first) => prev.push((true, e.0, first, e.1)),
                None => prev + all_spans(prev_occ, e.0).map_values(
                    |r: Span| (false, e.0, e.1, r),
                ),
            }
        }
    }
}

/// How the variable named `n` is used: its declaration, if any, and all its
/// spans; `None` if it does not occur.
pub open spec fn usage_model(occ: Seq<Occ>, n: Seq<char>) -> Option<(Option<Span>, Seq<Span>)> {
    if all_spans(occ, n).len() > 0 {
        Some((first_declaration(occ, n), all_spans(occ, n)))
    } else {
        None
    }
}

#[derive(Debug)]
pub struct VariableUsage {
    pub declaration: Option<Span>,
    pub all: Vec<Span>,
}

/// The variables of a message, each with how it is used.
#[derive(Debug)]
pub struct Scope<'text> {
    variables: Vec<(&'text str, VariableUsage)>,
}

#[derive(Debug, Clone, Copy)]
pub enum ScopeDiagnostic<'text> {
    DuplicateDeclaration { name: &'text str, first_span: Span, second_span: Span },
    UsageBeforeDeclaration { name: &'text str, declaration_span: Span, usage_span: Span },
}

impl<'text> ScopeDiagnostic<'text> {
    pub open spec fn model(&self) -> ScopeDiagnosticModel {
        match self {
            ScopeDiagnostic::DuplicateDeclaration { name, first_span, second_span } => (
                true,
                name@,
                *first_span,
                *second_span,
            ),
            ScopeDiagnostic::UsageBeforeDeclaration { name, declaration_span, usage_span } => (
                false,
                name@,
                *declaration_span,
                *usage_span,
            ),
        }
    }
}

/// The diagnostics, as values.
pub open spec fn scope_diagnostic_models(v: Seq<ScopeDiagnostic>) -> Seq<ScopeDiagnosticModel> {
    v.map_values(|d: ScopeDiagnostic| d.model())
}

impl<'text> Scope<'text> {
    /// The names, each with its declaration and spans.
    pub closed spec fn entries(&self) -> Seq<(Seq<char>, Option<Span>, Seq<Span>)> {
        self.variables@.map_values(
            |p: (&'text str, VariableUsage)| (p.0@, p.1.declaration, p.1.all@),
        )
    }

    /// How the variable named `n` is used, if it occurs.
    pub open spec fn usage(&self, n: Seq<char>) -> Option<(Option<Span>, Seq<Span>)> {
        if exists|i: int| 0 <= i < self.entries().len() && #[trigger] self.entries()[i].0 == n {
            let i = choose|i: int| 0 <= i < self.entries().len() && #[trigger] self.entries()[i].0 == n;
            Some((self.entries()[i].1, self.entries()[i].2))
        } else {
            None
        }
    }

    /// No name stands twice.
    pub open spec fn wf(&self) -> bool {
        forall|i: int, j: int|
            0 <= i < j < self.entries().len() ==> #[trigger] self.entries()[i].0
                != #[trigger] self.entries()[j].0
    }

    /// The entries are the usage of every name that occurs in `occ`.
    spec fn models(&self, occ: Seq<Occ>) -> bool {
        &&& self.wf()
        &&& forall|i: int|
            0 <= i < self.entries().len() ==> {
                let e = #[trigger] self.entries()[i];
                &&& e.2 == all_spans(occ, e.0)
                &&& e.1 == first_declaration(occ, e.0)
                &&& e.2.len() > 0
            }
        &&& forall|n: Seq<char>|
            #[trigger] all_spans(occ, n).len() > 0 ==> exists|i: int|
                0 <= i < self.entries().len() && #[trigger] self.entries()[i].0 == n
    }

    proof fn lemma_models_usage(&self, occ: Seq<Occ>)
        requires
            self.models(occ),
        ensures
            forall|n: Seq<char>| #[trigger] self.usage(n) == usage_model(occ, n),
    {
        assert forall|n: Seq<char>| #[trigger] self.usage(n) == usage_model(occ, n) by {
            if exists|i: int| 0 <= i < self.entries().len() && #[trigger] self.entries()[i].0 == n {
                let i = choose|i: int|
                    0 <= i < self.entries().len() && #[trigger] self.entries()[i].0 == n;
                let e = self.entries()[i];
                assert(e.2 == all_spans(occ, e.0));
            } else {
                if all_spans(occ, n).len() > 0 {
                    assert(exists|i: int|
                        0 <= i < self.entries().len() && #[trigger] self.entries()[i].0 == n);
                }
            }
        }
    }

    /// The index of the variable named `name`, if it occurs.
    fn index_of(&self, name: &str) -> (r: Option<usize>)
        ensures
            r matches Some(k) ==> k < self.entries().len() && self.entries()[k as int].0 == name@,
            r is None ==> forall|i: int|
                0 <= i < self.entries().len() ==> #[trigger] self.entries()[i].0 != name@,
    {
        let mut k: usize = 0;
        while k < self.variables.len()
            invariant
                k <= self.variables.len(),
                self.entries().len() == self.variables.len(),
                forall|i: int| 0 <= i < k ==> #[trigger] self.entries()[i].0 != name@,
            decreases self.variables.len() - k,
        {
            assert(self.entries()[k as int].0 == self.variables@[k as int].0@);
            if str_eq(self.variables[k].0, name) {
                return Some(k);
            }
            k = k + 1;
        }
        None
    }
}

/// A variable declared in `occ` also occurs in it.
proof fn lemma_declared_occurs(occ: Seq<Occ>, n: Seq<char>)
    ensures
        first_declaration(occ, n) is Some ==> all_spans(occ, n).len() > 0,
    decreases occ.len(),
{
    if occ.len() > 0 {
        lemma_declared_occurs(occ.drop_last(), n);
    }
}

impl<'text> Scope<'text> {
    /// Records one more occurrence, with the diagnostics it gives.
    fn record(
        &mut self,
        o: VariableOccurrence<'text>,
        diagnostics: &mut Vec<ScopeDiagnostic<'text>>,
        Ghost(occ): Ghost<Seq<Occ>>,
    )
        requires
            old(self).models(occ),
            scope_diagnostic_models(old(diagnostics)@) == scope_diagnostics(occ),
        ensures
            final(self).models(occ.push(o.model())),
            scope_diagnostic_models(final(diagnostics)@) == scope_diagnostics(occ.push(o.model())),
    {
        let ghost occ2 = occ.push(o.model());
        let ghost old_entries = self.entries();
        let ghost d0 = scope_diagnostic_models(diagnostics@);
        proof {
            assert(occ2.drop_last() =~= occ);
            assert(occ2.last() == o.model());
            lemma_declared_occurs(occ, o.name@);
        }
        match self.index_of(o.name) {
            Some(k) => {
                let ghost ek = old_entries[k as int];
                let (name, mut usage) = self.variables.remove(k);
                if o.declares {
                    match usage.declaration {
                        Some(first) => {
                            diagnostics.push(
                                ScopeDiagnostic::DuplicateDeclaration {
                                    name: o.name,
                                    first_span: first,
                                    second_span: o.span,
                                },
                            );
                            assert(scope_diagnostic_models(diagnostics@) =~= d0.push(
                                (true, o.name@, first, o.span),
                            ));
                        },
                        None => {
                            let mut r: usize = 0;
                            while r < usage.all.len()
                                invariant
                                    r <= usage.all.len(),
                                    scope_diagnostic_models(diagnostics@) =~= d0 + usage.all@.take(
                                        r as int,
                                    ).map_values(|u: Span| (false, o.name@, o.span, u)),
                                decreases usage.all.len() - r,
                            {
                                let ghost before = diagnostics@;
                                let ghost r0 = r as int;
                                let u0 = usage.all[r];
                                diagnostics.push(
                                    ScopeDiagnostic::UsageBeforeDeclaration {
                                        name: o.name,
                                        declaration_span: o.span,
                                        usage_span: u0,
                                    },
                                );
                                r = r + 1;
                                proof {
                                    assert(scope_diagnostic_models(diagnostics@)
                                        =~= scope_diagnostic_models(before).push(
                                        (false, o.name@, o.span, u0),
                                    ));
                                    assert(usage.all@.take(r as int).map_values(
                                        |u: Span| (false, o.name@, o.span, u),
                                    ) =~= usage.all@.take(r0).map_values(
                                        |u: Span| (false, o.name@, o.span, u),
                                    ).push((false, o.name@, o.span, u0)));
                                }
                                assert(scope_diagnostic_models(diagnostics@) =~= d0
                                    + usage.all@.take(r as int).map_values(
                                    |u: Span| (false, o.name@, o.span, u),
                                ));
                            }
                            assert(usage.all@.take(usage.all.len() as int) =~= usage.all@);
                            usage.declaration = Some(o.span);
                        },
                    }
                }
                usage.all.push(o.span);
                self.variables.insert(k, (name, usage));
                proof {
                    let new_entries = self.entries();
                    assert(new_entries =~= old_entries.update(
                        k as int,
                        (ek.0, usage.declaration, usage.all@),
                    ));
                    assert forall|i: int| 0 <= i < new_entries.len() implies {
                        let e = #[trigger] new_entries[i];
                        &&& e.2 == all_spans(occ2, e.0)
                        &&& e.1 == first_declaration(occ2, e.0)
                        &&& e.2.len() > 0
                    } by {
                        if i != k {
                            assert(old_entries[i].0 != old_entries[k as int].0);
                            assert(old_entries[i] == new_entries[i]);
                        }
                    }
                    assert forall|n: Seq<char>| #[trigger] all_spans(occ2, n).len() > 0 implies exists|i: int|
                        0 <= i < new_entries.len() && #[trigger] new_entries[i].0 == n by {
                        if n == o.name@ {
                            assert(new_entries[k as int].0 == n);
                        } else {
                            assert(all_spans(occ2, n) == all_spans(occ, n));
                            let i = choose|i: int|
                                0 <= i < old_entries.len() && #[trigger] old_entries[i].0 == n;
                            assert(new_entries[i].0 == n);
                        }
                    }
                    assert forall|i: int, j: int| 0 <= i < j < new_entries.len() implies #[trigger] new_entries[i].0
                        != #[trigger] new_entries[j].0 by {
                        assert(old_entries[i].0 != old_entries[j].0);
                    }
                }
            },
            None => {
                let mut all: Vec<Span> = Vec::new();
                all.push(o.span);
                let declaration = if o.declares {
                    Some(o.span)
                } else {
                    None
                };
                self.variables.push((o.name, VariableUsage { declaration, all }));
                proof {
                    assert(all_spans(occ, o.name@).len() == 0);
                    assert(all_spans(occ, o.name@).map_values(
                        |u: Span| (false, o.name@, o.span, u),
                    ) =~= Seq::<ScopeDiagnosticModel>::empty());
                    assert(scope_diagnostic_models(diagnostics@) =~= scope_diagnostics(occ2));
                    let new_entries = self.entries();
                    assert(new_entries =~= old_entries.push((o.name@, declaration, all@)));
                    assert forall|i: int| 0 <= i < new_entries.len() implies {
                        let e = #[trigger] new_entries[i];
                        &&& e.2 == all_spans(occ2, e.0)
                        &&& e.1 == first_declaration(occ2, e.0)
                        &&& e.2.len() > 0
                    } by {
                        if i < old_entries.len() {
                            assert(old_entries[i].0 != o.name@);
                            assert(old_entries[i] == new_entries[i]);
                        } else {
                            assert(all@ =~= seq![o.span]);
                            assert(all_spans(occ, o.name@) =~= Seq::<Span>::empty());
                        }
                    }
                    assert forall|n: Seq<char>| #[trigger] all_spans(occ2, n).len() > 0 implies exists|i: int|
                        0 <= i < new_entries.len() && #[trigger] new_entries[i].0 == n by {
                        if n == o.name@ {
                            assert(new_entries[old_entries.len() as int].0 == n);
                        } else {
                            assert(all_spans(occ2, n) == all_spans(occ, n));
                            let i = choose|i: int|
                                0 <= i < old_entries.len() && #[trigger] old_entries[i].0 == n;
                            assert(new_entries[i].0 == n);
                        }
                    }
                    assert forall|i: int, j: int| 0 <= i < j < new_entries.len() implies #[trigger] new_entries[i].0
                        != #[trigger] new_entries[j].0 by {
                        if j < old_entries.len() {
                            assert(old_entries[i].0 != old_entries[j].0);
                        } else {
                            assert(old_entries[i].0 != o.name@);
                        }
                    }
                }
            },
        }
    }
}

/// The diagnostic of the analysis that `d` is, if it is one.
pub open spec fn as_scope_diagnostic(d: Diagnostic) -> Option<ScopeDiagnosticModel> {
    match d {
        Diagnostic::DuplicateDeclaration { first_span, second_span, name } => Some(
            (true, name@, first_span, second_span),
        ),
        Diagnostic::UsageBeforeDeclaration { declaration_span, usage_span, name } => Some(
            (false, name@, declaration_span, usage_span),
        ),
        _ => None,
    }
}

impl<'text> Scope<'text> {
    /// Analyses the variables of a message: each name with its declaration
    /// and all its spans, and the diagnostics of declaring a variable twice
    /// or using it before it is declared.
    pub fn analyse(ast: &Message<'text>) -> (r: (Scope<'text>, Vec<ScopeDiagnostic<'text>>))
        ensures
            r.0.wf(),
            forall|n: Seq<char>| #[trigger] r.0.usage(n) == usage_model(message_occ(*ast), n),
            scope_diagnostic_models(r.1@) == scope_diagnostics(message_occ(*ast)),
    {
        let occurrences = message_occurrences(ast);
        let ghost occ = occ_models(occurrences@);
        let mut scope = Scope { variables: Vec::new() };
        let mut diagnostics: Vec<ScopeDiagnostic<'text>> = Vec::new();
        proof {
            assert(scope.entries() =~= Seq::<(Seq<char>, Option<Span>, Seq<Span>)>::empty());
            assert(occ.take(0) =~= Seq::<Occ>::empty());
            assert forall|n: Seq<char>| #[trigger] all_spans(occ.take(0), n).len() == 0 by {}
            assert(scope_diagnostic_models(diagnostics@) =~= Seq::<ScopeDiagnosticModel>::empty());
        }
        let mut i: usize = 0;
        while i < occurrences.len()
            invariant
                i <= occurrences.len(),
                occ == occ_models(occurrences@),
                scope.models(occ.take(i as int)),
                scope_diagnostic_models(diagnostics@) == scope_diagnostics(occ.take(i as int)),
            decreases occurrences.len() - i,
        {
            let o = occurrences[i];
            scope.record(o, &mut diagnostics, Ghost(occ.take(i as int)));
            i = i + 1;
            assert(occ.take(i as int) =~= occ.take(i - 1).push(o.model()));
        }
        proof {
            assert(occ.take(occurrences.len() as int) =~= occ);
            scope.lemma_models_usage(occ);
        }
        (scope, diagnostics)
    }

    /// Analyses the variables of a message, as `analyse` does, and appends
    /// its diagnostics to `diagnostics`.
    pub fn analyze(ast: &Message<'text>, diagnostics: &mut Vec<Diagnostic<'text>>) -> (r: Scope<'text>)
        ensures
            r.wf(),
            forall|n: Seq<char>| #[trigger] r.usage(n) == usage_model(message_occ(*ast), n),
            final(diagnostics).len() == old(diagnostics).len() + scope_diagnostics(
                message_occ(*ast),
            ).len(),
            forall|i: int|
                0 <= i < old(diagnostics).len() ==> #[trigger] final(diagnostics)[i] == old(
                    diagnostics,
                )[i],
            forall|j: int|
                0 <= j < scope_diagnostics(message_occ(*ast)).len() ==> as_scope_diagnostic(
                    #[trigger] final(diagnostics)[old(diagnostics).len() + j],
                ) == Some(scope_diagnostics(message_occ(*ast))[j]),
    {
        let (scope, found) = Scope::analyse(ast);
        let ghost d0 = diagnostics@;
        let ghost models = scope_diagnostic_models(found@);
        let mut j: usize = 0;
        while j < found.len()
            invariant
                j <= found.len(),
                models == scope_diagnostic_models(found@),
                diagnostics.len() == d0.len() + j,
                forall|i: int| 0 <= i < d0.len() ==> #[trigger] diagnostics[i] == d0[i],
                forall|k: int|
                    0 <= k < j ==> as_scope_diagnostic(#[trigger] diagnostics[d0.len() + k])
                        == Some(models[k]),
            decreases found.len() - j,
        {
            let d = match found[j] {
                ScopeDiagnostic::DuplicateDeclaration { name, first_span, second_span } => {
                    Diagnostic::DuplicateDeclaration { first_span, second_span, name }
                },
                ScopeDiagnostic::UsageBeforeDeclaration { name, declaration_span, usage_span } => {
                    Diagnostic::UsageBeforeDeclaration { declaration_span, usage_span, name }
                },
            };
            diagnostics.push(d);
            j = j + 1;
        }
        scope
    }

    /// All the spans of the variable named `name`, if it occurs.
    pub fn get_spans(&self, name: &str) -> (r: Option<&Vec<Span>>)
        requires
            self.wf(),
        ensures
            r is Some == self.usage(name@) is Some,
            r matches Some(v) ==> v@ == (self.usage(name@)->0).1,
    {
        match self.index_of(name) {
            Some(k) => {
                proof {
                    self.lemma_usage_at(k as int);
                }
                Some(&self.variables[k].1.all)
            },
            None => None,
        }
    }

    /// The span of the declaration of the variable named `name`, if it
    /// occurs and is declared.
    pub fn get_declaration_span(&self, name: &str) -> (r: Option<Span>)
        requires
            self.wf(),
        ensures
            r == match self.usage(name@) {
                Some(u) => u.0,
                None => None,
            },
    {
        match self.index_of(name) {
            Some(k) => {
                proof {
                    self.lemma_usage_at(k as int);
                }
                self.variables[k].1.declaration
            },
            None => None,
        }
    }

    /// The names of the variables that occur, each once.
    pub fn get_names(&self) -> (r: Vec<&'text str>)
        requires
            self.wf(),
        ensures
            r.len() == self.entries().len(),
            forall|i: int| 0 <= i < r.len() ==> #[trigger] r[i]@ == self.entries()[i].0,
            forall|i: int| 0 <= i < r.len() ==> self.usage(#[trigger] r[i]@) is Some,
            forall|n: Seq<char>|
                self.usage(n) is Some ==> exists|i: int| 0 <= i < r.len() && #[trigger] r[i]@ == n,
            forall|i: int, j: int| 0 <= i < j < r.len() ==> #[trigger] r[i]@ != #[trigger] r[j]@,
    {
        let mut names: Vec<&'text str> = Vec::new();
        let mut k: usize = 0;
        while k < self.variables.len()
            invariant
                k <= self.variables.len(),
                self.entries().len() == self.variables.len(),
                names.len() == k,
                forall|i: int| 0 <= i < k ==> #[trigger] names[i]@ == self.entries()[i].0,
            decreases self.variables.len() - k,
        {
            names.push(self.variables[k].0);
            k = k + 1;
        }
        proof {
            assert forall|i: int| 0 <= i < names.len() implies self.usage(#[trigger] names[i]@) is Some by {
                assert(self.entries()[i].0 == names[i]@);
            }
            assert forall|n: Seq<char>| self.usage(n) is Some implies exists|i: int|
                0 <= i < names.len() && #[trigger] names[i]@ == n by {
                let i = choose|i: int| 0 <= i < self.entries().len() && #[trigger] self.entries()[i].0 == n;
                assert(names[i]@ == n);
            }
            assert forall|i: int, j: int| 0 <= i < j < names.len() implies #[trigger] names[i]@
                != #[trigger] names[j]@ by {
                assert(self.entries()[i].0 != self.entries()[j].0);
            }
        }
        names
    }

    /// The usage of the name at index `k` is the one that `usage` gives.
    proof fn lemma_usage_at(&self, k: int)
        requires
            self.wf(),
            0 <= k < self.entries().len(),
        ensures
            self.usage(self.entries()[k].0) == Some((self.entries()[k].1, self.entries()[k].2)),
            self.entries()[k].2 == self.variables@[k].1.all@,
            self.entries()[k].1 == self.variables@[k].1.declaration,
    {
        let n = self.entries()[k].0;
        assert(exists|i: int| 0 <= i < self.entries().len() && #[trigger] self.entries()[i].0 == n);
        let i = choose|i: int| 0 <= i < self.entries().len() && #[trigger] self.entries()[i].0 == n;
        if i != k {
            if i < k {
                assert(self.entries()[i].0 != self.entries()[k].0);
            } else {
                assert(self.entries()[k].0 != self.entries()[i].0);
            }
        }
    }
}

/// Every occurrence in `occ` has a span in `s`.
pub open spec fn occ_in(occ: Seq<Occ>, s: Seq<char>) -> bool {
    forall|k: int| 0 <= k < occ.len() ==> span_in(s, #[trigger] occ[k].1)
}

proof fn lemma_options_occ_in(options: Seq<FnOrMarkupOption>, s: Seq<char>)
    requires
        crate::ast::options_wf(options, s),
    ensures
        occ_in(options_occ(options), s),
    decreases options.len(),
{
    if options.len() > 0 {
        lemma_options_occ_in(options.drop_last(), s);
        assert(options.last().wf(s));
    }
}

proof fn lemma_annotation_occ_in(a: Option<Annotation>, s: Seq<char>)
    requires
        crate::ast::annotation_wf(a, s),
    ensures
        occ_in(annotation_occ(a), s),
{
    if let Some(Annotation::Function(f)) = a {
        lemma_options_occ_in(f.options@, s);
    }
}

proof fn lemma_expression_occ_in(e: Expression, s: Seq<char>)
    requires
        e.wf(s),
    ensures
        occ_in(expression_occ(e), s),
{
    match e {
        Expression::LiteralExpression(x) => lemma_annotation_occ_in(x.annotation, s),
        Expression::VariableExpression(x) => lemma_annotation_occ_in(x.annotation, s),
        Expression::AnnotationExpression(x) => lemma_annotation_occ_in(Some(x.annotation), s),
    }
}

proof fn lemma_parts_occ_in(parts: Seq<PatternPart>, s: Seq<char>)
    requires
        forall|i: int| 0 <= i < parts.len() ==> #[trigger] parts[i].wf(s),
    ensures
        occ_in(parts_occ(parts), s),
    decreases parts.len(),
{
    if parts.len() > 0 {
        lemma_parts_occ_in(parts.drop_last(), s);
        let p = parts.last();
        assert(p.wf(s));
        match p {
            PatternPart::Expression(e) => lemma_expression_occ_in(e, s),
            PatternPart::Markup(m) => lemma_options_occ_in(m.options@, s),
            _ => {},
        }
    }
}

proof fn lemma_declarations_occ_in(ds: Seq<Declaration>, s: Seq<char>)
    requires
        forall|i: int| 0 <= i < ds.len() ==> #[trigger] ds[i].wf(s),
    ensures
        occ_in(declarations_occ(ds), s),
    decreases ds.len(),
{
    if ds.len() > 0 {
        lemma_declarations_occ_in(ds.drop_last(), s);
        let d = ds.last();
        assert(d.wf(s));
        match d {
            Declaration::InputDeclaration(x) => lemma_annotation_occ_in(x.expression.annotation, s),
            Declaration::LocalDeclaration(x) => lemma_expression_occ_in(x.expression, s),
        }
    }
}

proof fn lemma_selectors_occ_in(vs: Seq<Variable>, s: Seq<char>)
    requires
        forall|i: int| 0 <= i < vs.len() ==> #[trigger] vs[i].wf(s),
    ensures
        occ_in(selectors_occ(vs), s),
    decreases vs.len(),
{
    if vs.len() > 0 {
        lemma_selectors_occ_in(vs.drop_last(), s);
        assert(vs.last().wf(s));
    }
}

proof fn lemma_variants_occ_in(vs: Seq<Variant>, s: Seq<char>)
    requires
        forall|i: int| 0 <= i < vs.len() ==> #[trigger] vs[i].wf(s),
    ensures
        occ_in(variants_occ(vs), s),
    decreases vs.len(),
{
    if vs.len() > 0 {
        lemma_variants_occ_in(vs.drop_last(), s);
        assert(vs.last().wf(s));
        lemma_parts_occ_in(vs.last().pattern.pattern.parts@, s);
    }
}

/// Every variable that the analysis of a message placed in `s` records
/// (each span of each name, and so each span of its diagnostics) lies in
/// `s`.
pub proof fn law_occurrences_in_source(m: Message, s: Seq<char>)
    requires
        m.wf(s),
    ensures
        occ_in(message_occ(m), s),
{
    match m {
        Message::Simple(p) => lemma_parts_occ_in(p.parts@, s),
        Message::Complex(c) => {
            lemma_declarations_occ_in(c.declarations@, s);
            match c.body {
                ComplexMessageBody::QuotedPattern(q) => lemma_parts_occ_in(q.pattern.parts@, s),
                ComplexMessageBody::Matcher(mt) => {
                    lemma_selectors_occ_in(mt.selectors@, s);
                    lemma_variants_occ_in(mt.variants@, s);
                },
            }
        },
    }
}

} // verus!
