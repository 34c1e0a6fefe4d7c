//! What holds of the list of a file's fields: setting a field keeps the list, and
//! the list then shows what was set.
use crate::field_laws::{
    is_outer, is_settable, law_field_reads_back, lemma_attr_alike, lemma_numbered_set, lemma_outer,
};
use crate::form_edits::{
    drawn_as, fit_from, font_dict, line_object, name, named_upto, owner_of, set_from, set_pdf,
    switch_state, untouched, with_font, with_line, with_set, with_value, FitView, Work,
};
use crate::form_laws::{
    is_numbered, lemma_added, lemma_ascii_differ, lemma_set_object, reaches_owner,
};
use crate::forms::{
    annots_at, annots_upto, attr, described, fields_upto, flags_of, full_name, is_read_only,
    is_switch, is_widget, kind_at, names_up, rect_at, FieldKind, FieldView, Num, PARENT_LIMIT,
};
use crate::pdf::{
    added, as_dict, bytes_of, dict_get, dict_set, end_from, entry_set, key_from, law_set_then_get,
    lemma_end_from, lemma_key_from, lemma_object_from, object_at, object_from, resolved, ObjId,
    PdfView, Val, DEREF_LIMIT,
};
use crate::pdf_text::text_string;
use vstd::prelude::*;
use vstd::utf8::is_ascii_chars_encode_utf8;

verus! {

// --- References ---

/// Whether no reference in a value names an object number above `n`.
pub open spec fn refers_below(v: Val, n: u32) -> bool
    decreases v,
{
    match v {
        Val::Ref(id) => id.num <= n,
        Val::Array(a) => forall|i: int| 0 <= i < a.len() ==> refers_below(#[trigger] a[i], n),
        Val::Dict(d) => forall|i: int| 0 <= i < d.len() ==> refers_below((#[trigger] d[i]).1, n),
        Val::Stream(d, _) => forall|i: int|
            0 <= i < d.len() ==> refers_below((#[trigger] d[i]).1, n),
        _ => true,
    }
}

/// Whether a document refers to no object beyond its greatest number, where the
/// next new one would stand.
pub open spec fn is_self_contained(p: PdfView) -> bool {
    &&& is_numbered(p)
    &&& forall|i: int|
        0 <= i < p.objects.len() ==> refers_below((#[trigger] p.objects[i]).1, p.max_id)
    &&& forall|i: int| 0 <= i < p.pages.len() ==> (#[trigger] p.pages[i]).num <= p.max_id
}

proof fn lemma_below_grows(v: Val, n: u32, m: u32)
    requires
        refers_below(v, n),
        n <= m,
    ensures
        refers_below(v, m),
    decreases v,
{
    match v {
        Val::Array(a) => {
            assert forall|i: int| 0 <= i < a.len() implies refers_below(#[trigger] a[i], m) by {
                lemma_below_grows(a[i], n, m);
            }
        },
        Val::Dict(d) => {
            assert forall|i: int| 0 <= i < d.len() implies refers_below((#[trigger] d[i]).1, m) by {
                lemma_below_grows(d[i].1, n, m);
            }
        },
        Val::Stream(d, _) => {
            assert forall|i: int| 0 <= i < d.len() implies refers_below((#[trigger] d[i]).1, m) by {
                lemma_below_grows(d[i].1, n, m);
            }
        },
        _ => {},
    }
}

proof fn lemma_dict_below(v: Val, n: u32, i: int)
    requires
        refers_below(v, n),
        v is Dict,
        0 <= i < v->Dict_0.len(),
    ensures
        refers_below(v->Dict_0[i].1, n),
{
    let e = v->Dict_0[i];
}

proof fn lemma_entry_below(d: Seq<(Seq<u8>, Val)>, key: Seq<char>, n: u32)
    requires
        refers_below(Val::Dict(d), n),
        dict_get(d, key) is Some,
    ensures
        refers_below(dict_get(d, key)->0, n),
{
    lemma_key_from(d, bytes_of(key), 0);
    let k = key_from(d, bytes_of(key), 0)->0;
    lemma_dict_below(Val::Dict(d), n, k);
}

proof fn lemma_set_below(d: Seq<(Seq<u8>, Val)>, key: Seq<char>, x: Val, n: u32)
    requires
        refers_below(Val::Dict(d), n),
        refers_below(x, n),
    ensures
        refers_below(Val::Dict(dict_set(d, key, x)), n),
{
    let e = dict_set(d, key, x);
    lemma_key_from(d, bytes_of(key), 0);
    assert forall|i: int| 0 <= i < e.len() implies refers_below((#[trigger] e[i]).1, n) by {
        if i < d.len() {
            lemma_dict_below(Val::Dict(d), n, i);
        }
    }
}

proof fn lemma_object_below(p: PdfView, id: ObjId)
    requires
        is_self_contained(p),
        object_at(p, id) is Some,
    ensures
        refers_below(object_at(p, id)->0, p.max_id),
{
    lemma_end_from(p.objects, id, DEREF_LIMIT as nat);
    let k = end_from(p.objects, id, DEREF_LIMIT as nat)->0;
    assert(refers_below(p.objects[k].1, p.max_id));
}

proof fn lemma_resolved_below(p: PdfView, v: Val)
    requires
        is_self_contained(p),
        refers_below(v, p.max_id),
        resolved(p, v) is Some,
    ensures
        refers_below(resolved(p, v)->0, p.max_id),
{
    if let Val::Ref(id) = v {
        lemma_object_below(p, id);
    }
}

// --- Adding an object ---

proof fn lemma_object_other(all: Seq<(ObjId, Val)>, e: (ObjId, Val), id: ObjId, i: int)
    requires
        0 <= i,
        e.0 != id,
    ensures
        object_from(all.push(e), id, i) == object_from(all, id, i),
    decreases all.len() - i,
{
    let more = all.push(e);
    if i < all.len() {
        lemma_object_other(all, e, id, i + 1);
    } else if i == all.len() {
        assert(more[i] == e);
        assert(object_from(more, id, i + 1) is None);
    }
}

proof fn lemma_end_other(all: Seq<(ObjId, Val)>, e: (ObjId, Val), id: ObjId, left: nat, n: u32)
    requires
        forall|i: int| 0 <= i < all.len() ==> refers_below((#[trigger] all[i]).1, n),
        id.num <= n < e.0.num,
    ensures
        end_from(all.push(e), id, left) == end_from(all, id, left),
    decreases left,
{
    lemma_object_other(all, e, id, 0);
    lemma_object_from(all, id, 0);
    if let Some(k) = object_from(all, id, 0) {
        assert(refers_below(all[k].1, n));
        if let Val::Ref(next) = all[k].1 {
            if left > 0 {
                lemma_end_other(all, e, next, (left - 1) as nat, n);
            }
        }
    }
}

/// In a self-contained document an added object changes no lookup.
proof fn lemma_resolved_added(p: PdfView, x: Val, v: Val)
    requires
        is_self_contained(p),
        p.max_id < u32::MAX,
        refers_below(v, p.max_id),
    ensures
        resolved(added(p, x).0, v) == resolved(p, v),
{
    if let Val::Ref(id) = v {
        lemma_object_added(p, x, id);
    }
}

proof fn lemma_object_added(p: PdfView, x: Val, id: ObjId)
    requires
        is_self_contained(p),
        p.max_id < u32::MAX,
        id.num <= p.max_id,
    ensures
        object_at(added(p, x).0, id) == object_at(p, id),
{
    let fresh = ObjId { num: (p.max_id + 1) as u32, gen: 0 };
    lemma_object_from(p.objects, fresh, 0);
    if let Some(k) = object_from(p.objects, fresh, 0) {
        assert(p.objects[k].0.num <= p.max_id);
    }
    assert(added(p, x).0.objects == p.objects.push((fresh, x)));
    lemma_end_other(p.objects, (fresh, x), id, DEREF_LIMIT as nat, p.max_id);
    lemma_end_from(p.objects, id, DEREF_LIMIT as nat);
}

proof fn lemma_attr_added(p: PdfView, x: Val, d: Seq<(Seq<u8>, Val)>, key: Seq<char>, left: nat)
    requires
        is_self_contained(p),
        p.max_id < u32::MAX,
        refers_below(Val::Dict(d), p.max_id),
    ensures
        attr(added(p, x).0, d, key, left) == attr(p, d, key, left),
    decreases left,
{
    if left > 0 {
        match dict_get(d, key) {
            Some(v) => {
                lemma_entry_below(d, key, p.max_id);
                lemma_resolved_added(p, x, v);
            },
            None => {
                if let Some(v) = dict_get(d, "Parent"@) {
                    lemma_entry_below(d, "Parent"@, p.max_id);
                    lemma_resolved_added(p, x, v);
                    if let Some(up) = as_dict(resolved(p, v)) {
                        lemma_resolved_below(p, v);
                        lemma_attr_added(p, x, up, key, (left - 1) as nat);
                    }
                }
            },
        }
    }
}

proof fn lemma_names_added(
    p: PdfView,
    x: Val,
    d: Seq<(Seq<u8>, Val)>,
    parts: Seq<Seq<char>>,
    left: nat,
)
    requires
        is_self_contained(p),
        p.max_id < u32::MAX,
        refers_below(Val::Dict(d), p.max_id),
    ensures
        names_up(added(p, x).0, d, parts, left) == names_up(p, d, parts, left),
    decreases left,
{
    if left > 0 {
        if let Some(v) = dict_get(d, "T"@) {
            lemma_entry_below(d, "T"@, p.max_id);
            lemma_resolved_added(p, x, v);
        }
        let own = match dict_get(d, "T"@) {
            Some(v) => resolved(p, v),
            None => None,
        };
        let next = match own {
            Some(Val::Str(s, _)) => parts.push(crate::pdf_text::decoded(s)),
            _ => parts,
        };
        if let Some(v) = dict_get(d, "Parent"@) {
            lemma_entry_below(d, "Parent"@, p.max_id);
            lemma_resolved_added(p, x, v);
            if let Some(Val::Dict(up)) = resolved(p, v) {
                lemma_resolved_below(p, v);
                lemma_names_added(p, x, up, next, (left - 1) as nat);
            }
        }
    }
}

proof fn lemma_contained_added(p: PdfView, x: Val)
    requires
        is_self_contained(p),
        p.max_id < u32::MAX,
        refers_below(x, (p.max_id + 1) as u32),
    ensures
        is_self_contained(added(p, x).0),
{
    let q = added(p, x).0;
    let fresh = ObjId { num: (p.max_id + 1) as u32, gen: 0 };
    lemma_added(p, x, fresh);
    lemma_object_from(p.objects, fresh, 0);
    if let Some(k) = object_from(p.objects, fresh, 0) {
        assert(p.objects[k].0.num <= p.max_id);
    }
    assert forall|i: int| 0 <= i < q.objects.len() implies refers_below(
        (#[trigger] q.objects[i]).1,
        q.max_id,
    ) by {
        if i < p.objects.len() {
            assert(q.objects[i] == p.objects[i]);
            lemma_below_grows(p.objects[i].1, p.max_id, q.max_id);
        }
    }
}

// --- What is listed ---

/// What the list of fields takes from a widget, but for its value and options.
pub struct Listed {
    pub kind: Option<FieldKind>,
    pub name: Option<Seq<char>>,
    pub rect: Option<Seq<Num<Seq<char>>>>,
    pub flags: i64,
}

/// What is listed of the widget that an annotation is or refers to.
pub open spec fn listed(p: PdfView, v: Val) -> Option<Listed> {
    match as_dict(resolved(p, v)) {
        Some(d) => if is_widget(d) {
            Some(
                Listed {
                    kind: kind_at(p, d),
                    name: full_name(p, d),
                    rect: rect_at(p, d),
                    flags: flags_of(p, d),
                },
            )
        } else {
            None
        },
        None => None,
    }
}

/// The keys that decide nothing of what is listed.
pub open spec fn is_aside(key: Seq<char>) -> bool {
    &&& is_outer(key)
    &&& bytes_of(key) != bytes_of("T"@)
    &&& bytes_of(key) != bytes_of("Rect"@)
    &&& bytes_of(key) != bytes_of("Subtype"@)
    &&& bytes_of(key) != bytes_of("Annots"@)
}

proof fn lemma_aside()
    ensures
        is_aside("V"@),
        is_aside("AP"@),
        is_aside("AS"@),
{
    lemma_outer();
    reveal_strlit("V");
    reveal_strlit("AP");
    reveal_strlit("AS");
    reveal_strlit("T");
    reveal_strlit("Rect");
    reveal_strlit("Subtype");
    reveal_strlit("Annots");
    assert(bytes_of("V"@) != bytes_of("T"@)) by {
        is_ascii_chars_encode_utf8("V"@);
        is_ascii_chars_encode_utf8("T"@);
        assert(bytes_of("V"@)[0] == 'V' as u8);
        assert(bytes_of("T"@)[0] == 'T' as u8);
    }
    lemma_ascii_differ("V"@, "Rect"@);
    lemma_ascii_differ("V"@, "Subtype"@);
    lemma_ascii_differ("V"@, "Annots"@);
    lemma_ascii_differ("AP"@, "T"@);
    lemma_ascii_differ("AP"@, "Rect"@);
    lemma_ascii_differ("AP"@, "Subtype"@);
    lemma_ascii_differ("AP"@, "Annots"@);
    lemma_ascii_differ("AS"@, "T"@);
    lemma_ascii_differ("AS"@, "Rect"@);
    lemma_ascii_differ("AS"@, "Subtype"@);
    lemma_ascii_differ("AS"@, "Annots"@);
}

// --- Setting an entry ---

/// What a value resolves to when an entry is set: as before, or the dictionary
/// with that entry.
proof fn lemma_resolved_set(p: PdfView, o: ObjId, key: Seq<char>, x: Val, v: Val)
    requires
        as_dict(object_at(p, o)) is Some,
    ensures
        ({
            let a = resolved(p, v);
            let b = resolved(entry_set(p, o, key, x).0, v);
            a == b || (as_dict(a) is Some && b == Some(
                Val::Dict(dict_set(as_dict(a)->0, key, x)),
            ))
        }),
{
    if let Val::Ref(id) = v {
        lemma_set_object(p, o, key, x, id);
    }
}

proof fn lemma_names_set(
    p: PdfView,
    o: ObjId,
    key: Seq<char>,
    x: Val,
    d: Seq<(Seq<u8>, Val)>,
    e: Seq<(Seq<u8>, Val)>,
    parts: Seq<Seq<char>>,
    left: nat,
)
    requires
        as_dict(object_at(p, o)) is Some,
        is_aside(key),
        e == d || e == dict_set(d, key, x),
    ensures
        names_up(entry_set(p, o, key, x).0, e, parts, left) == names_up(p, d, parts, left),
    decreases left,
{
    let q = entry_set(p, o, key, x).0;
    if left > 0 {
        law_set_then_get(d, key, x, "T"@);
        law_set_then_get(d, key, x, "Parent"@);
        if let Some(v) = dict_get(d, "T"@) {
            lemma_resolved_set(p, o, key, x, v);
        }
        let own = match dict_get(d, "T"@) {
            Some(v) => resolved(p, v),
            None => None,
        };
        let next = match own {
            Some(Val::Str(s, _)) => parts.push(crate::pdf_text::decoded(s)),
            _ => parts,
        };
        if let Some(v) = dict_get(d, "Parent"@) {
            lemma_resolved_set(p, o, key, x, v);
            if let Some(Val::Dict(up)) = resolved(p, v) {
                let above = as_dict(resolved(q, v))->0;
                lemma_names_set(p, o, key, x, up, above, next, (left - 1) as nat);
            }
        }
    }
}

proof fn lemma_listed_set(p: PdfView, o: ObjId, key: Seq<char>, x: Val, v: Val)
    requires
        as_dict(object_at(p, o)) is Some,
        is_aside(key),
    ensures
        listed(entry_set(p, o, key, x).0, v) == listed(p, v),
{
    let q = entry_set(p, o, key, x).0;
    lemma_resolved_set(p, o, key, x, v);
    if let Some(d) = as_dict(resolved(p, v)) {
        let e = as_dict(resolved(q, v))->0;
        law_set_then_get(d, key, x, "Subtype"@);
        law_set_then_get(d, key, x, "Rect"@);
        lemma_attr_alike(p, o, key, x, d, e, "FT"@, PARENT_LIMIT as nat);
        lemma_attr_alike(p, o, key, x, d, e, "Ff"@, PARENT_LIMIT as nat);
        lemma_names_set(p, o, key, x, d, e, seq![], PARENT_LIMIT as nat);
        if let Some(r) = dict_get(d, "Rect"@) {
            lemma_resolved_set(p, o, key, x, r);
        }
        assert(kind_at(q, e) == kind_at(p, d));
        assert(flags_of(q, e) == flags_of(p, d));
        assert(rect_at(q, e) == rect_at(p, d));
        assert(is_widget(e) == is_widget(d));
    }
}

proof fn lemma_annots_set(p: PdfView, o: ObjId, key: Seq<char>, x: Val, page: ObjId)
    requires
        as_dict(object_at(p, o)) is Some,
        is_aside(key),
    ensures
        annots_at(entry_set(p, o, key, x).0, page) == annots_at(p, page),
{
    lemma_resolved_set(p, o, key, x, Val::Ref(page));
    if let Some(d) = as_dict(object_at(p, page)) {
        law_set_then_get(d, key, x, "Annots"@);
        if let Some(v) = dict_get(d, "Annots"@) {
            lemma_resolved_set(p, o, key, x, v);
        }
    }
}

proof fn lemma_listed_added(p: PdfView, x: Val, v: Val)
    requires
        is_self_contained(p),
        p.max_id < u32::MAX,
        refers_below(v, p.max_id),
    ensures
        listed(added(p, x).0, v) == listed(p, v),
{
    lemma_resolved_added(p, x, v);
    if let Some(d) = as_dict(resolved(p, v)) {
        lemma_resolved_below(p, v);
        lemma_attr_added(p, x, d, "FT"@, PARENT_LIMIT as nat);
        lemma_attr_added(p, x, d, "Ff"@, PARENT_LIMIT as nat);
        lemma_names_added(p, x, d, seq![], PARENT_LIMIT as nat);
        if let Some(r) = dict_get(d, "Rect"@) {
            lemma_entry_below(d, "Rect"@, p.max_id);
            lemma_resolved_added(p, x, r);
        }
    }
}

proof fn lemma_annots_added(p: PdfView, x: Val, page: ObjId)
    requires
        is_self_contained(p),
        p.max_id < u32::MAX,
        page.num <= p.max_id,
    ensures
        annots_at(added(p, x).0, page) == annots_at(p, page),
{
    lemma_object_added(p, x, page);
    if let Some(d) = as_dict(object_at(p, page)) {
        lemma_object_below(p, page);
        if let Some(v) = dict_get(d, "Annots"@) {
            lemma_entry_below(d, "Annots"@, p.max_id);
            lemma_resolved_added(p, x, v);
        }
    }
}

// --- Steps ---

/// Whether a document keeps what is listed of an annotation and a page of
/// another, and where an object is found.
pub open spec fn carries_over(p: PdfView, q: PdfView, v: Val, page: ObjId, r: ObjId) -> bool {
    &&& is_self_contained(q)
    &&& p.max_id <= q.max_id
    &&& q.pages == p.pages
    &&& q.encrypted == p.encrypted
    &&& q.decrypted == p.decrypted
    &&& listed(q, v) == listed(p, v)
    &&& annots_at(q, page) == annots_at(p, page)
    &&& object_at(p, r) is Some ==> end_from(q.objects, r, DEREF_LIMIT as nat) == end_from(
        p.objects,
        r,
        DEREF_LIMIT as nat,
    )
}

proof fn lemma_set_over(
    p: PdfView,
    o: ObjId,
    key: Seq<char>,
    x: Val,
    v: Val,
    page: ObjId,
    r: ObjId,
)
    requires
        is_self_contained(p),
        is_aside(key),
        refers_below(x, p.max_id),
    ensures
        carries_over(p, entry_set(p, o, key, x).0, v, page, r),
{
    let q = entry_set(p, o, key, x).0;
    lemma_numbered_set(p, o, key, x);
    if as_dict(object_at(p, o)) is Some {
        lemma_listed_set(p, o, key, x, v);
        lemma_annots_set(p, o, key, x, page);
        lemma_set_object(p, o, key, x, r);
        lemma_end_from(p.objects, o, DEREF_LIMIT as nat);
        lemma_object_below(p, o);
        let k = end_from(p.objects, o, DEREF_LIMIT as nat)->0;
        let d = as_dict(object_at(p, o))->0;
        lemma_set_below(d, key, x, p.max_id);
        assert forall|i: int| 0 <= i < q.objects.len() implies refers_below(
            (#[trigger] q.objects[i]).1,
            q.max_id,
        ) by {
            assert(refers_below(p.objects[i].1, p.max_id));
        }
    } else {
        assert(q == p);
    }
}

proof fn lemma_added_over(p: PdfView, x: Val, v: Val, page: ObjId, r: ObjId)
    requires
        is_self_contained(p),
        p.max_id < u32::MAX,
        refers_below(x, (p.max_id + 1) as u32),
        refers_below(v, p.max_id),
        page.num <= p.max_id,
    ensures
        carries_over(p, added(p, x).0, v, page, r),
{
    lemma_contained_added(p, x);
    lemma_listed_added(p, x, v);
    lemma_annots_added(p, x, page);
    lemma_added(p, x, r);
}

proof fn lemma_font_below(n: u32)
    ensures
        refers_below(font_dict(), n),
{
    let none = Seq::<(Seq<u8>, Val)>::empty();
    let a = dict_set(none, "Type"@, name("Font"@));
    let b = dict_set(a, "Subtype"@, name("Type1"@));
    let c = dict_set(b, "BaseFont"@, name("Helvetica"@));
    lemma_set_below(none, "Type"@, name("Font"@), n);
    lemma_set_below(a, "Subtype"@, name("Type1"@), n);
    lemma_set_below(b, "BaseFont"@, name("Helvetica"@), n);
    lemma_set_below(c, "Encoding"@, name("WinAnsiEncoding"@), n);
}

proof fn lemma_line_below(fit: FitView, text: Seq<char>, font: ObjId, n: u32)
    requires
        font.num <= n,
    ensures
        refers_below(line_object(fit, text, font), n),
{
    let none = Seq::<(Seq<u8>, Val)>::empty();
    let content = crate::form_edits::line_content(fit, text);
    let fonts = Val::Dict(dict_set(none, "Helv"@, Val::Ref(font)));
    let res = Val::Dict(dict_set(none, "Font"@, fonts));
    lemma_set_below(none, "Helv"@, Val::Ref(font), n);
    lemma_set_below(none, "Font"@, fonts, n);
    let a = dict_set(none, "Type"@, name("XObject"@));
    let b = dict_set(a, "Subtype"@, name("Form"@));
    let corners = seq![Val::Int(0), Val::Int(0), Val::Real(fit.width), Val::Real(fit.height)];
    let bbox = Val::Array(corners);
    assert(refers_below(bbox, n)) by {
        assert forall|i: int| 0 <= i < corners.len() implies refers_below(#[trigger] corners[i], n) by {
            assert(corners[i] is Int || corners[i] is Real);
        }
    }
    let c = dict_set(b, "BBox"@, bbox);
    let d = dict_set(c, "Resources"@, res);
    let e = dict_set(d, "Length"@, Val::Int(content.len() as i64));
    lemma_set_below(none, "Type"@, name("XObject"@), n);
    lemma_set_below(a, "Subtype"@, name("Form"@), n);
    lemma_set_below(b, "BBox"@, bbox, n);
    lemma_set_below(c, "Resources"@, res, n);
    lemma_set_below(d, "Length"@, Val::Int(content.len() as i64), n);
    assert forall|i: int| 0 <= i < e.len() implies refers_below((#[trigger] e[i]).1, n) by {
        lemma_dict_below(Val::Dict(e), n, i);
    }
}

proof fn lemma_drawn_below(id: ObjId, n: u32)
    requires
        id.num <= n,
    ensures
        refers_below(drawn_as(id), n),
{
    lemma_set_below(Seq::<(Seq<u8>, Val)>::empty(), "N"@, Val::Ref(id), n);
}

/// Whether the font in use is an object of the document.
pub open spec fn has_font(w: Work) -> bool {
    w.font matches Some(f) ==> f.num <= w.pdf.max_id
}

proof fn lemma_line_over(
    w: Work,
    j: ObjId,
    fit: FitView,
    text: Seq<char>,
    v: Val,
    page: ObjId,
    r: ObjId,
)
    requires
        is_self_contained(w.pdf),
        has_font(w),
        refers_below(v, w.pdf.max_id),
        page.num <= w.pdf.max_id,
    ensures
        carries_over(w.pdf, with_line(w, j, fit, text).pdf, v, page, r),
        has_font(with_line(w, j, fit, text)),
{
    if w.pdf.max_id <= u32::MAX - 2 {
        let f = with_font(w);
        if w.font is None {
            lemma_font_below((w.pdf.max_id + 1) as u32);
            lemma_added_over(w.pdf, font_dict(), v, page, r);
            lemma_added(w.pdf, font_dict(), r);
        }
        lemma_below_grows(v, w.pdf.max_id, f.pdf.max_id);
        let line = line_object(fit, text, f.font->0);
        lemma_line_below(fit, text, f.font->0, (f.pdf.max_id + 1) as u32);
        lemma_added_over(f.pdf, line, v, page, r);
        lemma_added(f.pdf, line, r);
        let (p, x) = added(f.pdf, line);
        lemma_drawn_below(x->0, p.max_id);
        lemma_aside();
        lemma_set_over(p, j, "AP"@, drawn_as(x->0), v, page, r);
        lemma_numbered_set(p, j, "AP"@, drawn_as(x->0));
    }
}

proof fn lemma_widget_over(
    w: Work,
    j: ObjId,
    value: Seq<char>,
    fits: Seq<FitView>,
    v: Val,
    page: ObjId,
    r: ObjId,
)
    requires
        is_self_contained(w.pdf),
        has_font(w),
        refers_below(v, w.pdf.max_id),
        page.num <= w.pdf.max_id,
    ensures
        carries_over(w.pdf, with_set(w, j, value, fits).pdf, v, page, r),
        has_font(with_set(w, j, value, fits)),
{
    let p = w.pdf;
    lemma_aside();
    if let Some(d) = as_dict(object_at(p, j)) {
        if let Some(kind) = kind_at(p, d) {
            if kind != FieldKind::Signature && !is_read_only(flags_of(p, d)) {
                let o = owner_of(p, j, PARENT_LIMIT as nat);
                if is_switch(kind) {
                    let state = name(switch_state(p, d, value));
                    let q = with_value(p, j, name(value));
                    lemma_set_over(p, o, "V"@, name(value), v, page, r);
                    lemma_set_over(q, j, "AS"@, state, v, page, r);
                } else if let Some(k) = fit_from(fits, j, 0) {
                    let x = Val::Str(text_string(value), false);
                    let q = with_value(p, j, x);
                    lemma_set_over(p, o, "V"@, x, v, page, r);
                    lemma_below_grows(v, p.max_id, q.max_id);
                    lemma_line_over(Work { pdf: q, ..w }, j, fits[k], value, v, page, r);
                }
            }
        }
    }
}

proof fn lemma_widgets_over(
    w: Work,
    ids: Seq<ObjId>,
    i: int,
    value: Seq<char>,
    fits: Seq<FitView>,
    v: Val,
    page: ObjId,
    r: ObjId,
)
    requires
        is_self_contained(w.pdf),
        has_font(w),
        refers_below(v, w.pdf.max_id),
        page.num <= w.pdf.max_id,
    ensures
        carries_over(w.pdf, set_from(w, ids, i, value, fits).pdf, v, page, r),
    decreases ids.len() - i,
{
    if 0 <= i < ids.len() {
        let n = with_set(w, ids[i], value, fits);
        lemma_widget_over(w, ids[i], value, fits, v, page, r);
        lemma_below_grows(v, w.pdf.max_id, n.pdf.max_id);
        lemma_widgets_over(n, ids, i + 1, value, fits, v, page, r);
    }
}

// --- The list ---

/// Whether two entries of the list of fields describe the same widget, its value
/// and its options left aside.
pub open spec fn same_entry(a: FieldView, b: FieldView) -> bool {
    &&& a.name == b.name
    &&& a.kind == b.kind
    &&& a.page == b.page
    &&& a.rect == b.rect
    &&& a.read_only == b.read_only
}

/// Whether two lists of fields hold the same widgets in the same order.
pub open spec fn same_entries(a: Seq<FieldView>, b: Seq<FieldView>) -> bool {
    a.len() == b.len() && forall|k: int|
        #![trigger a[k]]
        #![trigger b[k]]
        0 <= k < a.len() ==> same_entry(a[k], b[k])
}

/// The annotations of page `n`.
pub open spec fn annots_of(p: PdfView, n: int) -> Seq<Val> {
    match annots_at(p, p.pages[n]) {
        Some(a) => a,
        None => seq![],
    }
}

/// Whether a document lists the annotations of another as that does.
pub open spec fn lists_alike(p: PdfView, q: PdfView) -> bool {
    &&& q.pages == p.pages
    &&& forall|n: int|
        0 <= n < p.pages.len() ==> #[trigger] annots_at(q, p.pages[n]) == annots_at(p, p.pages[n])
    &&& forall|n: int, m: int|
        0 <= n < p.pages.len() && 0 <= m < annots_of(p, n).len() ==> listed(
            q,
            #[trigger] annots_of(p, n)[m],
        ) == listed(p, annots_of(p, n)[m])
}

proof fn lemma_same_annots(p: PdfView, q: PdfView, n: int, m: int)
    requires
        lists_alike(p, q),
        0 <= n < p.pages.len(),
        0 <= m <= annots_of(p, n).len(),
    ensures
        same_entries(
            annots_upto(p, annots_of(p, n), m, n),
            annots_upto(q, annots_of(p, n), m, n),
        ),
    decreases m,
{
    if m > 0 {
        lemma_same_annots(p, q, n, m - 1);
        let v = annots_of(p, n)[m - 1];
        assert(listed(q, v) == listed(p, v));
    }
}

proof fn lemma_same_fields(p: PdfView, q: PdfView, n: int)
    requires
        lists_alike(p, q),
        0 <= n <= p.pages.len(),
    ensures
        same_entries(fields_upto(p, n), fields_upto(q, n)),
    decreases n,
{
    if n > 0 {
        lemma_same_fields(p, q, n - 1);
        assert(annots_at(q, p.pages[n - 1]) == annots_at(p, p.pages[n - 1]));
        if let Some(a) = annots_at(p, p.pages[n - 1]) {
            lemma_same_annots(p, q, n - 1, a.len() as int);
            let (x, y) = (fields_upto(p, n - 1), fields_upto(q, n - 1));
            let (s, t) = (
                annots_upto(p, a, a.len() as int, n - 1),
                annots_upto(q, a, a.len() as int, n - 1),
            );
            assert forall|k: int|
                #![trigger (x + s)[k]]
                #![trigger (y + t)[k]]
                0 <= k < (x + s).len() implies same_entry((x + s)[k], (y + t)[k]) by {
                if k < x.len() {
                    assert(same_entry(x[k], y[k]));
                } else {
                    assert(same_entry(s[k - x.len()], t[k - x.len()]));
                }
            }
        }
    }
}

/// Whether a listed field can be written: it is neither read-only nor a
/// signature.
pub open spec fn is_writable(f: FieldView) -> bool {
    !f.read_only && f.kind != FieldKind::Signature
}

/// Whether every writable entry of a field holds a value, and `done` with it.
pub open spec fn all_hold(v: Seq<FieldView>, field: Seq<char>, value: Seq<char>, done: bool) -> bool {
    forall|k: int|
        0 <= k < v.len() && (#[trigger] v[k]).name == field && is_writable(v[k]) ==> v[k].value
            == value && done
}

/// Whether an annotation that is a writable widget of a field holds a value, and
/// `done` with it.
pub open spec fn annot_holds(
    q: PdfView,
    v: Val,
    field: Seq<char>,
    value: Seq<char>,
    done: bool,
) -> bool {
    match as_dict(resolved(q, v)) {
        Some(d) => is_widget(d) ==> match described(q, d, 0) {
            Some(f) => f.name == field && is_writable(f) ==> f.value == value && done,
            None => true,
        },
        None => true,
    }
}

proof fn lemma_annots_hold(
    q: PdfView,
    n: int,
    m: int,
    field: Seq<char>,
    value: Seq<char>,
    done: bool,
)
    requires
        0 <= m <= annots_of(q, n).len(),
        forall|i: int|
            0 <= i < annots_of(q, n).len() ==> annot_holds(
                q,
                #[trigger] annots_of(q, n)[i],
                field,
                value,
                done,
            ),
    ensures
        all_hold(annots_upto(q, annots_of(q, n), m, n), field, value, done),
    decreases m,
{
    if m > 0 {
        lemma_annots_hold(q, n, m - 1, field, value, done);
        assert(annot_holds(q, annots_of(q, n)[m - 1], field, value, done));
    }
}

proof fn lemma_fields_hold(q: PdfView, n: int, field: Seq<char>, value: Seq<char>, done: bool)
    requires
        0 <= n <= q.pages.len(),
        forall|i: int, m: int|
            0 <= i < q.pages.len() && 0 <= m < annots_of(q, i).len() ==> annot_holds(
                q,
                #[trigger] annots_of(q, i)[m],
                field,
                value,
                done,
            ),
    ensures
        all_hold(fields_upto(q, n), field, value, done),
    decreases n,
{
    if n > 0 {
        lemma_fields_hold(q, n - 1, field, value, done);
        if let Some(a) = annots_at(q, q.pages[n - 1]) {
            lemma_annots_hold(q, n - 1, a.len() as int, field, value, done);
            let x = fields_upto(q, n - 1);
            let s = annots_upto(q, a, a.len() as int, n - 1);
            assert forall|k: int|
                0 <= k < (x + s).len() && (#[trigger] (x + s)[k]).name == field && is_writable(
                    (x + s)[k],
                ) implies (x + s)[k].value == value && done by {
                if k < x.len() {
                    assert((x + s)[k] == x[k]);
                } else {
                    assert((x + s)[k] == s[k - x.len()]);
                }
            }
        }
    }
}

// --- Setting a field ---

/// The object that a reference leads to, by its own number.
pub open spec fn object_id(p: PdfView, r: ObjId) -> ObjId {
    p.objects[end_from(p.objects, r, DEREF_LIMIT as nat)->0].0
}

/// Whether an annotation, where it is a writable widget of a field, is one that
/// setting the field reaches: an object of the document, with its field above it
/// and no value of its own on the way there; and, for a text, with the
/// measures of its appearance.
pub open spec fn can_be_set(p: PdfView, v: Val, field: Seq<char>, fits: Seq<FitView>) -> bool {
    match listed(p, v) {
        Some(l) => l.name == Some(field) && l.kind is Some && l.kind != Some(FieldKind::Signature)
            && l.rect is Some && !is_read_only(l.flags) ==> (v matches Val::Ref(r) && reaches_owner(
            p,
            r,
            PARENT_LIMIT as nat,
        ) && (is_switch(l.kind->0) || fit_from(fits, object_id(p, r), 0) is Some)),
        None => true,
    }
}

proof fn lemma_end_id(all: Seq<(ObjId, Val)>, id: ObjId, left: nat)
    requires
        end_from(all, id, left) is Some,
    ensures
        ({
            let k = end_from(all, id, left)->0;
            &&& 0 <= k < all.len()
            &&& end_from(all, all[k].0, DEREF_LIMIT as nat) == Some(k)
        }),
    decreases left,
{
    lemma_object_from(all, id, 0);
    let j = object_from(all, id, 0)->0;
    if let Val::Ref(next) = all[j].1 {
        lemma_end_id(all, next, (left - 1) as nat);
    }
}

proof fn lemma_named(p: PdfView, field: Seq<char>, k: int, n: int)
    requires
        0 <= k < n <= p.objects.len(),
        as_dict(Some(p.objects[k].1)) is Some,
        is_widget(as_dict(Some(p.objects[k].1))->0),
        full_name(p, as_dict(Some(p.objects[k].1))->0) == Some(field),
    ensures
        named_upto(p, field, n).contains(p.objects[k].0),
    decreases n,
{
    let id = p.objects[k].0;
    let now = named_upto(p, field, n);
    if k == n - 1 {
        assert(now == named_upto(p, field, n - 1).push(id));
        assert(now[now.len() - 1] == id);
    } else {
        lemma_named(p, field, k, n - 1);
        let before = named_upto(p, field, n - 1);
        let i = choose|i: int| 0 <= i < before.len() && before[i] == id;
        assert(now[i] == id);
    }
}

proof fn lemma_annot_below(p: PdfView, n: int, m: int)
    requires
        is_self_contained(p),
        0 <= n < p.pages.len(),
        0 <= m < annots_of(p, n).len(),
    ensures
        refers_below(annots_of(p, n)[m], p.max_id),
{
    let page = p.pages[n];
    let d = as_dict(object_at(p, page))->0;
    lemma_object_below(p, page);
    lemma_entry_below(d, "Annots"@, p.max_id);
    let v = dict_get(d, "Annots"@)->0;
    lemma_resolved_below(p, v);
    lemma_array_below(resolved(p, v)->0, p.max_id, m);
}

proof fn lemma_array_below(v: Val, n: u32, i: int)
    requires
        refers_below(v, n),
        v is Array,
        0 <= i < v->Array_0.len(),
    ensures
        refers_below(v->Array_0[i], n),
{
    let e = v->Array_0[i];
}

proof fn lemma_set_lists_alike(
    p: PdfView,
    field: Seq<char>,
    value: Seq<char>,
    fits: Seq<FitView>,
)
    requires
        is_self_contained(p),
    ensures
        lists_alike(p, set_pdf(p, field, value, fits).pdf),
{
    let q = set_pdf(p, field, value, fits).pdf;
    let ids = named_upto(p, field, p.objects.len() as int);
    let w = untouched(p);
    let any = ObjId { num: 0, gen: 0 };
    lemma_widgets_over(w, ids, 0, value, fits, Val::Null, any, any);
    assert forall|n: int| 0 <= n < p.pages.len() implies #[trigger] annots_at(q, p.pages[n])
        == annots_at(p, p.pages[n]) by {
        lemma_widgets_over(w, ids, 0, value, fits, Val::Null, p.pages[n], any);
    }
    assert forall|n: int, m: int|
        0 <= n < p.pages.len() && 0 <= m < annots_of(p, n).len() implies listed(
        q,
        #[trigger] annots_of(p, n)[m],
    ) == listed(p, annots_of(p, n)[m]) by {
        lemma_annot_below(p, n, m);
        lemma_widgets_over(w, ids, 0, value, fits, annots_of(p, n)[m], any, any);
    }
}

pub(crate) proof fn lemma_set_carries(
    p: PdfView,
    field: Seq<char>,
    value: Seq<char>,
    fits: Seq<FitView>,
)
    requires
        is_self_contained(p),
    ensures
        ({
            let q = set_pdf(p, field, value, fits).pdf;
            q.pages == p.pages && q.encrypted == p.encrypted && q.decrypted == p.decrypted
        }),
{
    let ids = named_upto(p, field, p.objects.len() as int);
    let any = ObjId { num: 0, gen: 0 };
    lemma_widgets_over(untouched(p), ids, 0, value, fits, Val::Null, any, any);
}

/// Setting a field keeps the list of fields: every widget is still listed, in
/// its place, under its name, with its kind, page, rectangle and flag.
pub proof fn law_setting_keeps_the_list(
    p: PdfView,
    field: Seq<char>,
    value: Seq<char>,
    fits: Seq<FitView>,
)
    requires
        is_self_contained(p),
    ensures
        ({
            let q = set_pdf(p, field, value, fits).pdf;
            same_entries(
                fields_upto(p, p.pages.len() as int),
                fields_upto(q, q.pages.len() as int),
            )
        }),
{
    lemma_set_lists_alike(p, field, value, fits);
    lemma_same_fields(p, set_pdf(p, field, value, fits).pdf, p.pages.len() as int);
}

proof fn lemma_annot_set(
    p: PdfView,
    field: Seq<char>,
    value: Seq<char>,
    fits: Seq<FitView>,
    v: Val,
)
    requires
        is_self_contained(p),
        p.max_id + 2 * named_upto(p, field, p.objects.len() as int).len() <= u32::MAX,
        refers_below(v, p.max_id),
        can_be_set(p, v, field, fits),
    ensures
        ({
            let r = set_pdf(p, field, value, fits);
            annot_holds(r.pdf, v, field, value, r.changed)
        }),
{
    let w = set_pdf(p, field, value, fits);
    let q = w.pdf;
    let ids = named_upto(p, field, p.objects.len() as int);
    let any = ObjId { num: 0, gen: 0 };
    lemma_widgets_over(untouched(p), ids, 0, value, fits, v, any, any);
    if let Some(e) = as_dict(resolved(q, v)) {
        if is_widget(e) {
            if let Some(f) = described(q, e, 0) {
                if f.name == field && is_writable(f) {
                    let l = listed(p, v)->0;
                    assert(l.kind == Some(f.kind));
                    let r = v->Ref_0;
                    let o = object_id(p, r);
                    let left = DEREF_LIMIT as nat;
                    lemma_end_id(p.objects, r, left);
                    let k = end_from(p.objects, r, left)->0;
                    lemma_named(p, field, k, p.objects.len() as int);
                    assert(object_at(p, o) == object_at(p, r));
                    assert(reaches_owner(p, o, PARENT_LIMIT as nat));
                    assert(is_settable(p, o, f.kind));
                    law_field_reads_back(p, field, value, fits, o, f.kind);
                    lemma_widgets_over(untouched(p), ids, 0, value, fits, v, any, r);
                    lemma_widgets_over(untouched(p), ids, 0, value, fits, v, any, o);
                    assert(object_at(q, o) == object_at(q, r));
                }
            }
        }
    }
}

/// A field that is set is listed with what it was set to: every writable entry
/// of its name then holds the value, and the document counts as changed where
/// there is one.
pub proof fn law_set_field_is_listed(
    p: PdfView,
    field: Seq<char>,
    value: Seq<char>,
    fits: Seq<FitView>,
)
    requires
        is_self_contained(p),
        p.max_id + 2 * named_upto(p, field, p.objects.len() as int).len() <= u32::MAX,
        forall|n: int, m: int|
            0 <= n < p.pages.len() && 0 <= m < annots_of(p, n).len() ==> can_be_set(
                p,
                #[trigger] annots_of(p, n)[m],
                field,
                fits,
            ),
    ensures
        ({
            let r = set_pdf(p, field, value, fits);
            all_hold(fields_upto(r.pdf, r.pdf.pages.len() as int), field, value, r.changed)
        }),
{
    let w = set_pdf(p, field, value, fits);
    let q = w.pdf;
    lemma_set_lists_alike(p, field, value, fits);
    assert forall|n: int, m: int|
        0 <= n < q.pages.len() && 0 <= m < annots_of(q, n).len() implies annot_holds(
        q,
        #[trigger] annots_of(q, n)[m],
        field,
        value,
        w.changed,
    ) by {
        assert(annots_at(q, p.pages[n]) == annots_at(p, p.pages[n]));
        assert(annots_of(q, n) == annots_of(p, n));
        assert(can_be_set(p, annots_of(p, n)[m], field, fits));
        lemma_annot_below(p, n, m);
        lemma_annot_set(p, field, value, fits, annots_of(p, n)[m]);
    }
    lemma_fields_hold(q, q.pages.len() as int, field, value, w.changed);
}

} // verus!
