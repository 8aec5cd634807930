//! What the language server answers to requests on a message: the variable
//! at a cursor, renaming it, and quick fixes for diagnostics.
use vstd::prelude::*;
use vstd::string::StringExecFns;

use crate::ast::AnyNode;
use crate::ast::Message;
use crate::ast::Variable;
use crate::ast_utils::find_node;
use crate::ast_utils::last_containing;
use crate::ast_utils::message_nodes;
use crate::ast_utils::nodes_fit;
use crate::chars::is_valid_name;
use crate::chars::valid_name;
use crate::diagnostic::Diagnostic;
use crate::scope::Scope;
use crate::strings::char_len_utf8;
use crate::strings::chars_of;
use crate::strings::push_char;
use crate::strings::str_eq;
use crate::strings::utf8_len;
use crate::strings::lemma_utf8_len_concat;
use crate::strings::lemma_utf8_len_single;
use crate::text::Location;
use crate::text::Span;

verus! {

/// The variable at `loc`: the innermost node there, where it is a variable.
pub open spec fn variable_at<'ast, 'text>(ast: &'ast Message<'text>, loc: Location) -> Option<
    Variable<'text>,
> {
    match last_containing(message_nodes(ast), loc) {
        Some(AnyNode::Variable(v)) => Some(*v),
        _ => None,
    }
}

/// The name of the variable at `loc`, if there is one.
pub fn find_variable_at<'ast, 'text>(ast: &'ast Message<'text>, loc: Location) -> (r: Option<&'text str>)
    requires
        nodes_fit(message_nodes(ast)),
    ensures
        r is Some == variable_at(ast, loc) is Some,
        r matches Some(n) ==> n@ == variable_at(ast, loc)->0.name@,
{
    match find_node(ast, loc) {
        Some(AnyNode::Variable(node)) => Some(node.name),
        _ => None,
    }
}

/// The span of a variable's name: the end of its span, as long as the name.
pub open spec fn name_span(v: Variable) -> Span {
    let len = utf8_len(v.name@);
    Span {
        start: Location(
            if len <= v.span.end.0 {
                (v.span.end.0 - len) as u32
            } else {
                0
            },
        ),
        end: v.span.end,
    }
}

/// The number of bytes of `s` in UTF-8, where it fits in 32 bits.
fn utf8_len_u64(s: &str) -> (r: u64)
    ensures
        r == if utf8_len(s@) <= u32::MAX { utf8_len(s@) as int } else { u32::MAX + 1 },
{
    let cs = chars_of(s);
    let mut n: u64 = 0;
    let mut k: usize = 0;
    while k < cs.len()
        invariant
            k <= cs.len(),
            cs@ == s@,
            n == utf8_len(cs@.take(k as int)),
            n <= u32::MAX,
        decreases cs.len() - k,
    {
        proof {
            assert(cs@.take(k + 1) =~= cs@.take(k as int) + seq![cs@[k as int]]);
            lemma_utf8_len_concat(cs@.take(k as int), seq![cs@[k as int]]);
            lemma_utf8_len_single(cs@[k as int]);
            lemma_utf8_len_prefix(cs@, k + 1);
        }
        n = n + char_len_utf8(cs[k]) as u64;
        if n > 0xffff_ffff {
            return 0x1_0000_0000;
        }
        k = k + 1;
    }
    assert(cs@.take(k as int) =~= cs@);
    n
}

/// A prefix is encoded in no more bytes than the whole.
proof fn lemma_utf8_len_prefix(s: Seq<char>, k: int)
    requires
        0 <= k <= s.len(),
    ensures
        utf8_len(s.take(k)) <= utf8_len(s),
{
    assert(s =~= s.take(k) + s.skip(k));
    lemma_utf8_len_concat(s.take(k), s.skip(k));
}

/// Where a rename at `loc` can apply: the name of the variable there.
pub fn prepare_rename<'ast, 'text>(ast: &'ast Message<'text>, loc: Location) -> (r: Option<Span>)
    requires
        nodes_fit(message_nodes(ast)),
    ensures
        r == match variable_at(ast, loc) {
            Some(v) => Some(name_span(v)),
            None => None,
        },
{
    match find_node(ast, loc) {
        Some(AnyNode::Variable(node)) => {
            let len = utf8_len_u64(node.name);
            let end = node.span.end.0;
            let start = if len <= end as u64 {
                end - len as u32
            } else {
                0
            };
            Some(Span { start: Location(start), end: node.span.end })
        },
        _ => None,
    }
}

/// An edit of the text: what replaces a span.
#[derive(Debug)]
pub struct TextEdit {
    pub span: Span,
    pub new_text: String,
}

/// The edits, as values.
pub open spec fn edit_models(v: Seq<TextEdit>) -> Seq<(Span, Seq<char>)> {
    v.map_values(|e: TextEdit| (e.span, e.new_text@))
}

/// Why a rename is refused.
#[derive(Debug)]
pub enum RenameError {
    /// The new name is not a valid name.
    InvalidName,
    /// No variable stands at the position.
    NoVariable,
}

/// Renames the variable at `loc` to `new_name` everywhere it occurs:
/// refused where the name is not valid or no variable stands there; no edit
/// where the name is the same; else `$` and the new name at each span of
/// the variable.
pub fn rename<'ast, 'text>(
    ast: &'ast Message<'text>,
    scope: &Scope<'text>,
    loc: Location,
    new_name: &str,
) -> (r: Result<Option<Vec<TextEdit>>, RenameError>)
    requires
        nodes_fit(message_nodes(ast)),
        scope.wf(),
        variable_at(ast, loc) matches Some(v) ==> scope.usage(v.name@) is Some,
    ensures
        !valid_name(new_name@) ==> r matches Err(RenameError::InvalidName),
        valid_name(new_name@) && variable_at(ast, loc) is None ==> r matches Err(
            RenameError::NoVariable,
        ),
        valid_name(new_name@) ==> (variable_at(ast, loc) matches Some(v) ==> if v.name@ == new_name@ {
            r matches Ok(None)
        } else {
            r matches Ok(Some(edits)) && edit_models(edits@) == (scope.usage(v.name@)->0).1.map_values(
                |sp: Span| (sp, seq!['$'] + new_name@),
            )
        }),
{
    if !is_valid_name(new_name) {
        return Err(RenameError::InvalidName);
    }
    let old_name = match find_variable_at(ast, loc) {
        Some(n) => n,
        None => return Err(RenameError::NoVariable),
    };
    if str_eq(old_name, new_name) {
        return Ok(None);
    }
    let spans = match scope.get_spans(old_name) {
        Some(spans) => spans,
        None => return Err(RenameError::NoVariable),
    };
    let ghost target = (scope.usage(old_name@)->0).1;
    let mut edits: Vec<TextEdit> = Vec::new();
    let mut k: usize = 0;
    while k < spans.len()
        invariant
            k <= spans.len(),
            spans@ == target,
            edit_models(edits@) == target.take(k as int).map_values(
                |sp: Span| (sp, seq!['$'] + new_name@),
            ),
        decreases spans.len() - k,
    {
        let mut text = String::new();
        push_char(&mut text, '$');
        text.append(new_name);
        assert(text@ =~= seq!['$'] + new_name@);
        let ghost before = edits@;
        let edit = TextEdit { span: spans[k], new_text: text };
        edits.push(edit);
        assert(edit_models(edits@) =~= edit_models(before).push((spans@[k as int], seq!['$'] + new_name@)));
        k = k + 1;
        assert(edit_models(edits@) =~= target.take(k as int).map_values(
            |sp: Span| (sp, seq!['$'] + new_name@),
        ));
    }
    assert(target.take(k as int) =~= target);
    Ok(Some(edits))
}

/// A fix offered for a diagnostic: its title, the edit, and the diagnostic
/// it resolves, displayed, with its span.
#[derive(Debug)]
pub struct QuickFix {
    pub title: String,
    pub edit: TextEdit,
    pub diagnostic_span: Span,
    pub diagnostic_message: String,
}

/// A fix as values: the span it removes, with the diagnostic's text.
pub open spec fn quick_fix_model(q: QuickFix) -> (Seq<char>, Span, Seq<char>, Span, Seq<char>) {
    (q.title@, q.edit.span, q.edit.new_text@, q.diagnostic_span, q.diagnostic_message@)
}

/// Whether a diagnostic has a quick fix: a space before the identifier of a
/// markup tag, removed.
pub open spec fn has_quick_fix(d: Diagnostic) -> bool {
    d is MarkupInvalidSpaceBeforeIdentifier
}

/// The quick fixes for those of `ds` that cover `span`, in order: each
/// removes the diagnostic's span.
pub open spec fn quick_fixes_for(ds: Seq<Diagnostic>, span: Span) -> Seq<
    (Seq<char>, Span, Seq<char>, Span, Seq<char>),
>
    decreases ds.len(),
{
    if ds.len() == 0 {
        seq![]
    } else {
        let rest = quick_fixes_for(ds.drop_last(), span);
        let d = ds.last();
        let sp = d.spec_span();
        if sp.start.byte() <= span.start.byte() && span.end.byte() <= sp.end.byte() && has_quick_fix(d) {
            rest.push(("Remove space before identifier"@, sp, Seq::<char>::empty(), sp, d.display_text()))
        } else {
            rest
        }
    }
}

/// The quick fixes for the diagnostics that cover `span`: see
/// `quick_fixes_for`.
pub fn quick_fixes(diagnostics: &Vec<Diagnostic>, span: Span) -> (r: Vec<QuickFix>)
    requires
        forall|k: int| 0 <= k < diagnostics.len() ==> #[trigger] diagnostics[k].fits(),
    ensures
        r@.map_values(|q: QuickFix| quick_fix_model(q)) == quick_fixes_for(diagnostics@, span),
{
    let mut fixes: Vec<QuickFix> = Vec::new();
    let mut k: usize = 0;
    while k < diagnostics.len()
        invariant
            k <= diagnostics.len(),
            forall|k: int| 0 <= k < diagnostics.len() ==> #[trigger] diagnostics[k].fits(),
            fixes@.map_values(|q: QuickFix| quick_fix_model(q)) == quick_fixes_for(
                diagnostics@.take(k as int),
                span,
            ),
        decreases diagnostics.len() - k,
    {
        assert(diagnostics@.take(k + 1).drop_last() =~= diagnostics@.take(k as int));
        let d = &diagnostics[k];
        assert(diagnostics@[k as int].fits());
        let sp = d.span();
        let ghost before = fixes@;
        if sp.contains(&span) {
            if let Diagnostic::MarkupInvalidSpaceBeforeIdentifier { .. } = d {
                let title = String::from_str("Remove space before identifier");
                proof {
                    reveal_strlit("Remove space before identifier");
                }
                let fix = QuickFix {
                    title,
                    edit: TextEdit { span: sp, new_text: String::new() },
                    diagnostic_span: sp,
                    diagnostic_message: d.to_string(),
                };
                fixes.push(fix);
                assert(fixes@.map_values(|q: QuickFix| quick_fix_model(q)) =~= before.map_values(
                    |q: QuickFix| quick_fix_model(q),
                ).push(quick_fix_model(fix)));
            }
        }
        k = k + 1;
        assert(fixes@.map_values(|q: QuickFix| quick_fix_model(q)) =~= quick_fixes_for(
            diagnostics@.take(k as int),
            span,
        ));
    }
    assert(diagnostics@.take(k as int) =~= diagnostics@);
    fixes
}

} // verus!
