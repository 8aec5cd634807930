//! The diagnostics of a resource file as an editor shows them: the
//! structural errors of the file, then the errors of each value, parsed as a
//! message and placed back in the file.
use vstd::prelude::*;
use vstd::string::StringSliceAdditionalSpecFns;
use vstd::utf8::encode_utf8;

use crate::ast::Message;
use crate::diagnostic::Diagnostic;
use crate::parse_allows;
use crate::scope::as_scope_diagnostic;
use crate::scope::message_occ;
use crate::scope::scope_diagnostics;
use crate::resource::diagnostics_model;
use crate::resource::doc_model;
use crate::resource::lines_wf;
use crate::resource::metadata_model;
use crate::resource::resource_read;
use crate::resource::value_model;
use crate::resource::DiagnosticModel;
use crate::resource::DocModel;
use crate::resource::MetadataModel;
use crate::resource::RawLine;
use crate::resource::ResourceValue;
use crate::resource::ValueModel;
use crate::resource::parse_resource;
use crate::strings::lemma_utf8_len_encode;
use crate::strings::utf8_len;
use crate::text::Location;
use crate::text::SourceTextInfo;
use crate::text::Span;

verus! {

/// A diagnostic of the file: where it applies, and its message.
#[derive(Debug)]
pub struct DocumentDiagnostic {
    pub span: Span,
    pub message: String,
}

/// A span of a value's text placed in the file, by the byte offsets in the
/// file of the bytes of the value: its start at the byte it starts at, its
/// end just after the byte before it. A position past the value maps just
/// after its last byte; a value of no bytes maps nothing.
pub open spec fn remapped(offsets: Seq<u32>, span: Span) -> Option<Span> {
    if offsets.len() == 0 {
        None
    } else {
        let start = span.start.byte();
        let end = span.end.byte();
        let past = offsets.last() + 1;
        let mapped_start = if start < offsets.len() {
            offsets[start] as int
        } else {
            past
        };
        let mapped_end = if end == 0 {
            mapped_start
        } else if end - 1 < offsets.len() {
            offsets[end - 1] + 1
        } else {
            past
        };
        Some(Span { start: Location(mapped_start as u32), end: Location(mapped_end as u32) })
    }
}

/// Places a span of a value's text in the file: see `remapped`. The result
/// is not checked to run forward: an empty span right after bytes the value
/// dropped (a carriage return before a line feed) ends before it starts.
pub fn remap_value_span(source_offsets: &[u32], span: Span) -> (r: Option<Span>)
    requires
        forall|i: int| 0 <= i < source_offsets.len() ==> #[trigger] source_offsets[i] < u32::MAX,
    ensures
        r == remapped(source_offsets@, span),
{
    let start = span.start.0 as usize;
    let end = span.end.0 as usize;
    let n = source_offsets.len();
    if n == 0 {
        return None;
    }
    let past = source_offsets[n - 1] + 1;
    let mapped_start = if start < n {
        source_offsets[start]
    } else {
        past
    };
    let mapped_end = if end == 0 {
        mapped_start
    } else if end - 1 < n {
        source_offsets[end - 1] + 1
    } else {
        past
    };
    Some(Span { start: Location(mapped_start), end: Location(mapped_end) })
}

/// The diagnostics of a value placed in the file: each one whose span can be
/// placed, with its message.
pub open spec fn placed_diagnostics(offsets: Seq<u32>, ds: Seq<Diagnostic>) -> Seq<(Span, Seq<char>)>
    decreases ds.len(),
{
    if ds.len() == 0 {
        seq![]
    } else {
        let rest = placed_diagnostics(offsets, ds.drop_last());
        match remapped(offsets, ds.last().spec_span()) {
            Some(sp) => rest.push((sp, ds.last().message_text())),
            None => rest,
        }
    }
}

/// The diagnostics, as values.
pub open spec fn document_models(v: Seq<DocumentDiagnostic>) -> Seq<(Span, Seq<char>)> {
    v.map_values(|d: DocumentDiagnostic| (d.span, d.message@))
}

/// Appends the diagnostics of a value, placed in the file: see
/// `placed_diagnostics`.
pub fn push_value_diagnostics(
    out: &mut Vec<DocumentDiagnostic>,
    value: &ResourceValue,
    diagnostics: &Vec<Diagnostic>,
)
    requires
        forall|i: int| 0 <= i < value.source_offsets.len() ==> #[trigger] value.source_offsets[i] < u32::MAX,
        forall|k: int| 0 <= k < diagnostics.len() ==> #[trigger] diagnostics[k].fits(),
    ensures
        document_models(final(out)@) == document_models(old(out)@) + placed_diagnostics(
            value.source_offsets@,
            diagnostics@,
        ),
{
    let mut k: usize = 0;
    while k < diagnostics.len()
        invariant
            k <= diagnostics.len(),
            forall|i: int|
                0 <= i < value.source_offsets.len() ==> #[trigger] value.source_offsets[i] < u32::MAX,
            forall|k: int| 0 <= k < diagnostics.len() ==> #[trigger] diagnostics[k].fits(),
            document_models(out@) == document_models(old(out)@) + placed_diagnostics(
                value.source_offsets@,
                diagnostics@.take(k as int),
            ),
        decreases diagnostics.len() - k,
    {
        assert(diagnostics@.take(k + 1).drop_last() =~= diagnostics@.take(k as int));
        let d = &diagnostics[k];
        assert(diagnostics@[k as int].fits());
        let ghost before = out@;
        if let Some(span) = remap_value_span(value.source_offsets.as_slice(), d.span()) {
            out.push(DocumentDiagnostic { span, message: d.message() });
            assert(document_models(out@) =~= document_models(before).push((span, d.message_text())));
        }
        k = k + 1;
        assert(document_models(out@) =~= document_models(old(out)@) + placed_diagnostics(
            value.source_offsets@,
            diagnostics@.take(k as int),
        ));
    }
    assert(diagnostics@.take(k as int) =~= diagnostics@);
}

/// The diagnostics of a value's text `t`: the first `n` those of parsing it
/// into `m`, the rest those of the analysis of the variables of `m`.
pub open spec fn value_diagnostics(t: Seq<char>, m: Message, ds: Seq<Diagnostic>, n: int) -> bool {
    &&& 0 <= n <= ds.len()
    &&& parse_allows(t, m, ds.take(n))
    &&& ds.len() == n + scope_diagnostics(message_occ(m)).len()
    &&& forall|j: int|
        0 <= j < ds.len() - n ==> as_scope_diagnostic(#[trigger] ds[n + j]) == Some(
            scope_diagnostics(message_occ(m))[j],
        )
}

/// Parses a value as a message, analyses its variables, and appends its
/// diagnostics placed in the file. A value too long for locations of 32
/// bits, which no value of a file that fits them is, is skipped.
fn push_parsed_value_diagnostics(out: &mut Vec<DocumentDiagnostic>, value: &ResourceValue, Ghost(s): Ghost<Seq<char>>)
    requires
        value.wf(s),
        utf8_len(s) <= u32::MAX,
    ensures
        document_models(old(out)@).len() <= document_models(final(out)@).len(),
        document_models(final(out)@).take(document_models(old(out)@).len() as int) == document_models(old(out)@),
        utf8_len(value.text@) > u32::MAX ==> final(out)@ == old(out)@,
        utf8_len(value.text@) <= u32::MAX ==> exists|m: Message, ds: Seq<Diagnostic>, n: int|
            value_diagnostics(value.text@, m, ds, n) && document_models(final(out)@) == document_models(
                old(out)@,
            ) + placed_diagnostics(value.source_offsets@, ds),
{
    let text = value.text.as_str();
    proof {
        lemma_utf8_len_encode(text@);
        lemma_utf8_len_encode(s);
        assert forall|i: int| 0 <= i < value.source_offsets.len() implies #[trigger] value.source_offsets[i]
            < u32::MAX by {
            assert(value.source_offsets@[i] < encode_utf8(s).len());
        }
    }
    assert(encode_utf8(text@).len() == value.source_offsets.len());
    assert(text.spec_bytes().len() == utf8_len(text@));
    if text.len() > 0xffff_ffff {
        return;
    }
    let (ast, mut diagnostics, _) = crate::parse(text);
    let ghost parsed = diagnostics@;
    let _scope = crate::analyze_semantics(&ast, &mut diagnostics);
    proof {
        assert forall|k: int| 0 <= k < diagnostics.len() implies #[trigger] diagnostics[k].fits() by {
            if k < parsed.len() {
                assert(parsed[k].wf(text@));
            } else {
                let j = k - parsed.len();
                assert(as_scope_diagnostic(diagnostics[parsed.len() + j]) is Some);
            }
        }
    }
    let ghost before = out@;
    push_value_diagnostics(out, value, &diagnostics);
    assert(document_models(out@).take(document_models(before).len() as int) =~= document_models(before));
    proof {
        let n = parsed.len() as int;
        assert(diagnostics@.take(n) =~= parsed);
        assert forall|j: int| 0 <= j < diagnostics@.len() - n implies as_scope_diagnostic(
            #[trigger] diagnostics@[n + j],
        ) == Some(scope_diagnostics(message_occ(ast))[j]) by {
            assert(as_scope_diagnostic(diagnostics[n + j]) == Some(scope_diagnostics(message_occ(ast))[j]));
        }
        assert(value_diagnostics(value.text@, ast, diagnostics@, n));
    }
}

/// The values of the metadata items that have one, in order.
pub open spec fn metadata_values(ms: Seq<MetadataModel>) -> Seq<ValueModel>
    decreases ms.len(),
{
    if ms.len() == 0 {
        seq![]
    } else {
        metadata_values(ms.drop_last()) + match ms.last().value {
            Some(v) => seq![v],
            None => seq![],
        }
    }
}

/// The values of a document: those of its entries, then those of its
/// metadata.
pub open spec fn values_of(d: DocModel) -> Seq<ValueModel> {
    d.entries.map_values(|e: crate::resource::EntryModel| e.value) + metadata_values(d.metadata)
}

/// The structural errors as the file shows them: span and message.
pub open spec fn structural_models(ds: Seq<DiagnosticModel>) -> Seq<(Span, Seq<char>)> {
    ds.map_values(|d: DiagnosticModel| (d.span, d.message))
}

/// `dss[i]` are the diagnostics of value `i` (see `value_diagnostics`), with
/// `ms[i]` its message; a value too long for locations of 32 bits has none.
pub open spec fn values_diagnosed(
    vs: Seq<ValueModel>,
    ms: Seq<Message>,
    dss: Seq<Seq<Diagnostic>>,
    ns: Seq<int>,
) -> bool {
    &&& ms.len() == vs.len()
    &&& dss.len() == vs.len()
    &&& ns.len() == vs.len()
    &&& forall|i: int|
        0 <= i < vs.len() ==> (utf8_len(#[trigger] vs[i].text) <= u32::MAX ==> value_diagnostics(
            vs[i].text,
            ms[i],
            dss[i],
            ns[i],
        )) && (utf8_len(vs[i].text) > u32::MAX ==> dss[i].len() == 0)
}

/// The diagnostics of each value placed in the file, one value after the
/// other.
pub open spec fn placed_all(vs: Seq<ValueModel>, dss: Seq<Seq<Diagnostic>>) -> Seq<(Span, Seq<char>)>
    decreases vs.len(),
{
    if vs.len() == 0 || dss.len() == 0 {
        seq![]
    } else {
        placed_all(vs.drop_last(), dss.drop_last()) + placed_diagnostics(vs.last().offsets, dss.last())
    }
}

/// The diagnostics of a resource file: its structural errors, in order,
/// then those of the value of each entry and of each metadata item, parsed
/// as messages and placed in the file; with the information on the text.
pub fn document_diagnostics(text: &str) -> (r: (Vec<DocumentDiagnostic>, SourceTextInfo))
    requires
        utf8_len(text@) <= u32::MAX,
    ensures
        r.1.wf(),
        r.1.chars() == text@,
        exists|ls: Seq<RawLine>, ms: Seq<Message>, dss: Seq<Seq<Diagnostic>>, ns: Seq<int>|
            lines_wf(text@, ls) && values_diagnosed(values_of(resource_read(text@, ls).doc), ms, dss, ns)
                && document_models(r.0@) == structural_models(resource_read(text@, ls).diagnostics)
                + placed_all(values_of(resource_read(text@, ls).doc), dss),
{
    let (resource, structural, info) = parse_resource(text);
    let ghost ls = choose|ls: Seq<RawLine>|
        lines_wf(text@, ls) && doc_model(resource) == resource_read(text@, ls).doc && diagnostics_model(
            structural@,
        ) == resource_read(text@, ls).diagnostics;
    let ghost st = resource_read(text@, ls);
    let ghost vals = values_of(st.doc);
    let mut out: Vec<DocumentDiagnostic> = Vec::new();
    let mut k: usize = 0;
    while k < structural.len()
        invariant
            k <= structural.len(),
            diagnostics_model(structural@) == st.diagnostics,
            document_models(out@) == structural_models(st.diagnostics.take(k as int)),
        decreases structural.len() - k,
    {
        let d = &structural[k];
        let ghost before = out@;
        out.push(DocumentDiagnostic { span: d.span, message: d.message.clone() });
        proof {
            assert(st.diagnostics[k as int] == crate::resource::diagnostic_model(structural@[k as int]));
            assert(document_models(out@) =~= document_models(before).push((d.span, d.message@)));
            assert(st.diagnostics.take(k + 1) =~= st.diagnostics.take(k as int).push(st.diagnostics[k as int]));
            assert(structural_models(st.diagnostics.take(k + 1)) =~= structural_models(
                st.diagnostics.take(k as int),
            ).push((d.span, d.message@)));
        }
        k = k + 1;
    }
    let ghost head = out@;
    proof {
        assert(st.diagnostics.take(k as int) =~= st.diagnostics);
    }
    let ghost mut ms: Seq<Message> = seq![];
    let ghost mut dss: Seq<Seq<Diagnostic>> = seq![];
    let ghost mut ns: Seq<int> = seq![];
    let ghost mut done: Seq<ValueModel> = seq![];
    let mut e: usize = 0;
    while e < resource.entries.len()
        invariant
            e <= resource.entries.len(),
            resource.wf(text@),
            utf8_len(text@) <= u32::MAX,
            doc_model(resource) == st.doc,
            vals == values_of(st.doc),
            done == st.doc.entries.map_values(|x: crate::resource::EntryModel| x.value).take(e as int),
            values_diagnosed(done, ms, dss, ns),
            document_models(out@) == document_models(head) + placed_all(done, dss),
        decreases resource.entries.len() - e,
    {
        proof {
            assert(resource.entries[e as int].wf(
                text@,
                resource.metadata.len() as int,
                resource.comments.len() as int,
            ));
        }
        let ghost before = out@;
        push_parsed_value_diagnostics(&mut out, &resource.entries[e].value, Ghost(text@));
        proof {
            let v = resource.entries@[e as int].value;
            let vm = value_model(v);
            assert(st.doc.entries[e as int] == crate::resource::entry_model(resource.entries@[e as int]));
            let (m1, ds1, n1) = if utf8_len(v.text@) <= u32::MAX {
                choose|m: Message, ds: Seq<Diagnostic>, n: int|
                    value_diagnostics(v.text@, m, ds, n) && document_models(out@) == document_models(before)
                        + placed_diagnostics(v.source_offsets@, ds)
            } else {
                (vstd::pervasive::arbitrary::<Message>(), Seq::<Diagnostic>::empty(), 0int)
            };
            proof_values_step(done, ms, dss, ns, vm, m1, ds1, n1);
            let done2 = done.push(vm);
            assert(placed_all(done2, dss.push(ds1)) == placed_all(done, dss) + placed_diagnostics(vm.offsets, ds1)) by {
                assert(done2.drop_last() =~= done);
                assert(dss.push(ds1).drop_last() =~= dss);
            }
            assert(document_models(out@) =~= document_models(head) + placed_all(done2, dss.push(ds1)));
            assert(st.doc.entries.map_values(|x: crate::resource::EntryModel| x.value).take(e + 1)
                =~= done2);
            done = done2;
            ms = ms.push(m1);
            dss = dss.push(ds1);
            ns = ns.push(n1);
        }
        e = e + 1;
    }
    proof {
        assert(done =~= st.doc.entries.map_values(|x: crate::resource::EntryModel| x.value));
    }
    let ghost entry_values = done;
    let mut m: usize = 0;
    while m < resource.metadata.len()
        invariant
            m <= resource.metadata.len(),
            resource.wf(text@),
            utf8_len(text@) <= u32::MAX,
            doc_model(resource) == st.doc,
            entry_values == st.doc.entries.map_values(|x: crate::resource::EntryModel| x.value),
            done == entry_values + metadata_values(st.doc.metadata.take(m as int)),
            values_diagnosed(done, ms, dss, ns),
            document_models(out@) == document_models(head) + placed_all(done, dss),
        decreases resource.metadata.len() - m,
    {
        proof {
            assert(resource.metadata[m as int].wf(text@));
            assert(st.doc.metadata[m as int] == metadata_model(resource.metadata@[m as int]));
            assert(st.doc.metadata.take(m + 1).drop_last() =~= st.doc.metadata.take(m as int));
        }
        if let Some(value) = &resource.metadata[m].value {
            let ghost before = out@;
            push_parsed_value_diagnostics(&mut out, value, Ghost(text@));
            proof {
                let v = *value;
                let vm = value_model(v);
                let (m1, ds1, n1) = if utf8_len(v.text@) <= u32::MAX {
                    choose|mm: Message, ds: Seq<Diagnostic>, n: int|
                        value_diagnostics(v.text@, mm, ds, n) && document_models(out@) == document_models(
                            before,
                        ) + placed_diagnostics(v.source_offsets@, ds)
                } else {
                    (vstd::pervasive::arbitrary::<Message>(), Seq::<Diagnostic>::empty(), 0int)
                };
                proof_values_step(done, ms, dss, ns, vm, m1, ds1, n1);
                let done2 = done.push(vm);
                assert(placed_all(done2, dss.push(ds1)) == placed_all(done, dss) + placed_diagnostics(vm.offsets, ds1)) by {
                    assert(done2.drop_last() =~= done);
                    assert(dss.push(ds1).drop_last() =~= dss);
                }
                assert(document_models(out@) =~= document_models(head) + placed_all(done2, dss.push(ds1)));
                assert(done2 =~= entry_values + metadata_values(st.doc.metadata.take(m + 1)));
                done = done2;
                ms = ms.push(m1);
                dss = dss.push(ds1);
                ns = ns.push(n1);
            }
        } else {
            proof {
                assert(done =~= entry_values + metadata_values(st.doc.metadata.take(m + 1)));
            }
        }
        m = m + 1;
    }
    proof {
        assert(st.doc.metadata.take(m as int) =~= st.doc.metadata);
        assert(done == vals);
    }
    (out, info)
}

/// Adding a value with its diagnostics keeps the values diagnosed.
proof fn proof_values_step(
    done: Seq<ValueModel>,
    ms: Seq<Message>,
    dss: Seq<Seq<Diagnostic>>,
    ns: Seq<int>,
    v: ValueModel,
    m: Message,
    ds: Seq<Diagnostic>,
    n: int,
)
    requires
        values_diagnosed(done, ms, dss, ns),
        utf8_len(v.text) <= u32::MAX ==> value_diagnostics(v.text, m, ds, n),
        utf8_len(v.text) > u32::MAX ==> ds.len() == 0,
    ensures
        values_diagnosed(done.push(v), ms.push(m), dss.push(ds), ns.push(n)),
{
    assert forall|i: int| 0 <= i < done.len() + 1 implies (utf8_len(#[trigger] done.push(v)[i].text)
        <= u32::MAX ==> value_diagnostics(done.push(v)[i].text, ms.push(m)[i], dss.push(ds)[i], ns.push(n)[i]))
        && (utf8_len(done.push(v)[i].text) > u32::MAX ==> dss.push(ds)[i].len() == 0) by {
        if i < done.len() {
            assert(done.push(v)[i] == done[i]);
        }
    }
}

} // verus!
