use vstd::prelude::*;

use crate::checker::ast::Bound;
use crate::checker::ast::FieldDecl;
use crate::checker::ast::Impl;
use crate::checker::ast::MemberDecl;
use crate::checker::ast::Needs;
use crate::checker::ast::Span;
use crate::checker::ast::UnionBound;
use crate::strings::push_char;

verus! {

pub enum TraitItem {
    Member(MemberDecl),
    Needs(Needs),
}

pub enum TypeItem {
    Field(FieldDecl),
    Impl(Impl),
}

/// The members of a list of trait items, in order.
pub open spec fn trait_members(items: Seq<TraitItem>) -> Seq<MemberDecl>
    decreases items.len(),
{
    if items.len() == 0 {
        seq![]
    } else {
        let rest = trait_members(items.drop_last());
        match items.last() {
            TraitItem::Member(m) => rest.push(m),
            TraitItem::Needs(_) => rest,
        }
    }
}

/// The `needs` constraints of a list of trait items, in order.
pub open spec fn trait_needs(items: Seq<TraitItem>) -> Seq<Needs>
    decreases items.len(),
{
    if items.len() == 0 {
        seq![]
    } else {
        let rest = trait_needs(items.drop_last());
        match items.last() {
            TraitItem::Member(_) => rest,
            TraitItem::Needs(n) => rest.push(n),
        }
    }
}

/// The fields of a list of type items, in order.
pub open spec fn type_fields(items: Seq<TypeItem>) -> Seq<FieldDecl>
    decreases items.len(),
{
    if items.len() == 0 {
        seq![]
    } else {
        let rest = type_fields(items.drop_last());
        match items.last() {
            TypeItem::Field(f) => rest.push(f),
            TypeItem::Impl(_) => rest,
        }
    }
}

/// The implementations of a list of type items, in order.
pub open spec fn type_impls(items: Seq<TypeItem>) -> Seq<Impl>
    decreases items.len(),
{
    if items.len() == 0 {
        seq![]
    } else {
        let rest = type_impls(items.drop_last());
        match items.last() {
            TypeItem::Field(_) => rest,
            TypeItem::Impl(i) => rest.push(i),
        }
    }
}

/// Splits trait items into members and `needs` constraints, keeping their
/// order.
pub fn split_trait_items(items: Vec<TraitItem>) -> (r: (Vec<MemberDecl>, Vec<Needs>))
    ensures
        r.0@ == trait_members(items@),
        r.1@ == trait_needs(items@),
{
    let mut members: Vec<MemberDecl> = Vec::new();
    let mut needs: Vec<Needs> = Vec::new();
    let ghost all = items@;
    let mut items = items;
    let mut k: usize = 0;
    assert(all.len() == items.len());
    while items.len() > 0
        invariant
            items@ == all.skip(k as int),
            items.len() == all.len() - k,
            all.len() <= usize::MAX,
            k <= all.len(),
            members@ == trait_members(all.take(k as int)),
            needs@ == trait_needs(all.take(k as int)),
        decreases items.len(),
    {
        assert(k < all.len());
        let item = items.remove(0);
        proof {
            assert(all.take(k + 1).drop_last() =~= all.take(k as int));
            assert(all.take(k + 1).last() == all[k as int]);
            assert(items@ =~= all.skip(k + 1));
        }
        match item {
            TraitItem::Member(m) => members.push(m),
            TraitItem::Needs(n) => needs.push(n),
        }
        k = k + 1;
    }
    proof {
        assert(all.take(all.len() as int) =~= all);
        assert(k == all.len());
    }
    (members, needs)
}

/// Splits type items into fields and implementations, keeping their order.
pub fn split_type_items(items: Vec<TypeItem>) -> (r: (Vec<FieldDecl>, Vec<Impl>))
    ensures
        r.0@ == type_fields(items@),
        r.1@ == type_impls(items@),
{
    let mut fields: Vec<FieldDecl> = Vec::new();
    let mut impls: Vec<Impl> = Vec::new();
    let ghost all = items@;
    let mut items = items;
    let mut k: usize = 0;
    assert(all.len() == items.len());
    while items.len() > 0
        invariant
            items@ == all.skip(k as int),
            items.len() == all.len() - k,
            all.len() <= usize::MAX,
            k <= all.len(),
            fields@ == type_fields(all.take(k as int)),
            impls@ == type_impls(all.take(k as int)),
        decreases items.len(),
    {
        assert(k < all.len());
        let item = items.remove(0);
        proof {
            assert(all.take(k + 1).drop_last() =~= all.take(k as int));
            assert(all.take(k + 1).last() == all[k as int]);
            assert(items@ =~= all.skip(k + 1));
        }
        match item {
            TypeItem::Field(f) => fields.push(f),
            TypeItem::Impl(i) => impls.push(i),
        }
        k = k + 1;
    }
    proof {
        assert(all.take(all.len() as int) =~= all);
        assert(k == all.len());
    }
    (fields, impls)
}

/// Builds a [`Bound`] from a head term and any `| term` alternatives,
/// collapsing a single-element union to the term itself.
pub fn make_bound(first: Bound, rest: Vec<Bound>) -> (r: Bound)
    ensures
        rest@.len() == 0 ==> r == first,
        rest@.len() > 0 ==> (r matches Bound::Union(u) && u.span == (Span {
            start: first.spec_span().start,
            end: rest@.last().spec_span().end,
        }) && u.options@ == seq![first] + rest@),
{
    if rest.len() == 0 {
        return first;
    }
    let mut rest = rest;
    let start = first.span().start;
    let end = rest[rest.len() - 1].span().end;
    let mut options: Vec<Bound> = Vec::new();
    options.push(first);
    options.append(&mut rest);
    let span = Span { start, end };
    Bound::Union(UnionBound { span, options })
}

/// The unescaped contents of a quoted string (`"..."`): the outer quotes are
/// dropped, `\"` and `\\` stand for `"` and `\`, and any other backslash is
/// kept as it is.
pub open spec fn unescaped(s: Seq<char>) -> Seq<char>
    decreases s.len(),
{
    if s.len() == 0 {
        seq![]
    } else if s[0] == '\\' {
        if s.len() == 1 {
            seq!['\\']
        } else if s[1] == '"' || s[1] == '\\' {
            seq![s[1]] + unescaped(s.skip(2))
        } else {
            seq!['\\', s[1]] + unescaped(s.skip(2))
        }
    } else {
        seq![s[0]] + unescaped(s.skip(1))
    }
}

proof fn lemma_unescaped_step(s: Seq<char>, i: int)
    requires
        0 <= i < s.len(),
    ensures
        s[i] != '\\' ==> unescaped(s.skip(i)) == seq![s[i]] + unescaped(s.skip(i + 1)),
        s[i] == '\\' && i + 1 == s.len() ==> unescaped(s.skip(i)) == seq!['\\'],
        s[i] == '\\' && i + 1 < s.len() && (s[i + 1] == '"' || s[i + 1] == '\\')
            ==> unescaped(s.skip(i)) == seq![s[i + 1]] + unescaped(s.skip(i + 2)),
        s[i] == '\\' && i + 1 < s.len() && !(s[i + 1] == '"' || s[i + 1] == '\\')
            ==> unescaped(s.skip(i)) == seq!['\\', s[i + 1]] + unescaped(s.skip(i + 2)),
{
    let t = s.skip(i);
    assert(t[0] == s[i]);
    if t.len() > 1 {
        assert(t[1] == s[i + 1]);
        assert(t.skip(2) =~= s.skip(i + 2));
    }
    assert(t.skip(1) =~= s.skip(i + 1));
}

/// Unescapes a quoted string literal.
pub fn unescape(raw: &str) -> (r: String)
    requires
        raw@.len() >= 2,
    ensures
        r@ == unescaped(raw@.subrange(1, raw@.len() - 1)),
{
    let chars = crate::strings::chars_of(raw);
    let n = chars.len() - 1;
    let ghost inner = raw@.subrange(1, raw@.len() - 1);
    let mut out = String::new();
    let mut i: usize = 1;
    proof {
        assert(inner.skip(0) =~= inner);
    }
    while i < n
        invariant
            chars@ == raw@,
            n == chars.len() - 1,
            1 <= i <= n + 1,
            inner == raw@.subrange(1, raw@.len() - 1),
            i <= n ==> out@ + unescaped(inner.skip(i - 1)) == unescaped(inner),
            i == n + 1 ==> out@ == unescaped(inner),
        decreases n + 1 - i,
    {
        let c = chars[i];
        let ghost j = i - 1;
        proof {
            assert(inner[j] == c);
            lemma_unescaped_step(inner, j);
        }
        if c == '\\' {
            if i + 1 < n {
                let d = chars[i + 1];
                proof {
                    assert(inner[j + 1] == d);
                }
                if d == '"' || d == '\\' {
                    push_char(&mut out, d);
                } else {
                    push_char(&mut out, '\\');
                    push_char(&mut out, d);
                }
                proof {
                    assert(out@ + unescaped(inner.skip(j + 2)) == unescaped(inner));
                    if i + 2 > n {
                        assert(inner.skip(j + 2) =~= Seq::<char>::empty());
                    }
                }
                i = i + 2;
            } else {
                push_char(&mut out, '\\');
                proof {
                    assert(out@ =~= unescaped(inner));
                }
                i = n + 1;
            }
        } else {
            push_char(&mut out, c);
            proof {
                assert(out@ + unescaped(inner.skip(j + 1)) == unescaped(inner));
                if i + 1 > n {
                    assert(inner.skip(j + 1) =~= Seq::<char>::empty());
                }
            }
            i = i + 1;
        }
    }
    proof {
        if i == n {
            assert(inner.skip(i - 1) =~= Seq::<char>::empty());
            assert(out@ =~= out@ + Seq::<char>::empty());
        }
    }
    out
}

} // verus!
