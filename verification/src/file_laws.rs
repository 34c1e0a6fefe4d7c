//! What holds of files: a field that was set is listed with its value, and a
//! normalized file is left alone. Both hold of a file that reads as a copy of the
//! document it was written for.
use crate::form_edits::{
    named_upto, normal_file, normal_pdf, set_file, set_pdf, state_at, unseen_text, untouched,
    widgets_upto, FitView,
};
use crate::form_laws::is_numbered;
use crate::forms::{
    annots_at, annots_upto, attr, described, fields_of, fields_upto, flags_of, full_name,
    is_widget, kind_at, names_up, rect_at, states_at, value_at, FieldView, PARENT_LIMIT,
};
use crate::listing_laws::{
    all_hold, annots_of, can_be_set, is_self_contained, is_writable, law_set_field_is_listed,
    law_setting_keeps_the_list, lemma_set_carries,
};
use crate::normal_laws::{is_quiet, lemma_all_quiet, lemma_normal_quiet, settles};
use crate::pdf::{
    as_dict, bytes_of, dict_get, dict_in, key_from, lemma_key_from, object_at, pdf_read, resolved,
    ObjId, PdfView, Val,
};
use crate::pdf_text::decoded;
use vstd::prelude::*;

verus! {

// --- Copies ---

/// Whether `b` says what `a` says. Files do not tell a whole number from a real
/// one, so a real number may come back as either, but not as the flags of a
/// field. What streams hold does not matter.
pub open spec fn says_same(a: Val, b: Val) -> bool
    decreases a,
{
    match a {
        Val::Real(_) => b is Real || b is Int,
        Val::Str(s, _) => b matches Val::Str(t, _) && s == t,
        Val::Array(x) => b matches Val::Array(y) && x.len() == y.len() && forall|i: int|
            0 <= i < x.len() ==> says_same(#[trigger] x[i], y[i]),
        Val::Dict(x) => b matches Val::Dict(y) && x.len() == y.len() && forall|i: int|
            0 <= i < x.len() ==> says_same((#[trigger] x[i]).1, y[i].1) && x[i].0 == y[i].0 && (
            x[i].0 == bytes_of("Ff"@) ==> x[i].1 == y[i].1),
        Val::Stream(_, _) => b is Stream,
        _ => a == b,
    }
}

/// Whether two values are both missing or say the same.
pub open spec fn both_say(a: Option<Val>, b: Option<Val>) -> bool {
    match a {
        Some(x) => b matches Some(y) && says_same(x, y),
        None => b is None,
    }
}

/// Whether two values say the same, and a number in the same form.
pub open spec fn both_are(a: Option<Val>, b: Option<Val>) -> bool {
    both_say(a, b) && (a matches Some(Val::Real(_)) ==> a == b)
}

/// Whether every reference in a value, streams aside, is one of `ids`.
pub open spec fn refers_within(v: Val, ids: Set<ObjId>) -> bool
    decreases v,
{
    match v {
        Val::Ref(id) => ids.contains(id),
        Val::Array(a) => forall|i: int| 0 <= i < a.len() ==> refers_within(#[trigger] a[i], ids),
        Val::Dict(d) => forall|i: int|
            0 <= i < d.len() ==> refers_within((#[trigger] d[i]).1, ids),
        _ => true,
    }
}

/// Whether `r` is a copy of `p` in all that its pages and widgets lead to: the
/// objects of `ids` refer, streams aside, to each other alone, and say in `r`
/// what they say in `p`. Other objects may come and go, such as those that only
/// tell how a file is laid out.
pub open spec fn is_copy(p: PdfView, r: PdfView, ids: Set<ObjId>) -> bool {
    &&& r.pages == p.pages
    &&& r.encrypted == p.encrypted
    &&& r.decrypted == p.decrypted
    &&& r.max_id >= p.max_id
    &&& forall|i: int| 0 <= i < p.pages.len() ==> ids.contains(#[trigger] p.pages[i])
    &&& forall|id: ObjId| #[trigger]
        ids.contains(id) ==> both_are(object_at(p, id), object_at(r, id)) && (object_at(
            p,
            id,
        ) matches Some(v) ==> refers_within(v, ids))
    &&& forall|id: ObjId| #[trigger]
        widgets_upto(r.objects, r.objects.len() as int).contains(id) ==> ids.contains(id)
            && widgets_upto(p.objects, p.objects.len() as int).contains(id)
}

// --- Entries ---

proof fn lemma_entry_same(a: Val, b: Val, i: int)
    requires
        says_same(a, b),
        a is Dict,
        0 <= i < a->Dict_0.len(),
    ensures
        b is Dict,
        b->Dict_0.len() == a->Dict_0.len(),
        a->Dict_0[i].0 == b->Dict_0[i].0,
        says_same(a->Dict_0[i].1, b->Dict_0[i].1),
        a->Dict_0[i].0 == bytes_of("Ff"@) ==> a->Dict_0[i].1 == b->Dict_0[i].1,
{
    let e = a->Dict_0[i];
}

proof fn lemma_item_same(a: Val, b: Val, i: int)
    requires
        says_same(a, b),
        a is Array,
        0 <= i < a->Array_0.len(),
    ensures
        b is Array,
        b->Array_0.len() == a->Array_0.len(),
        says_same(a->Array_0[i], b->Array_0[i]),
{
    let e = a->Array_0[i];
}

proof fn lemma_key_same(x: Seq<(Seq<u8>, Val)>, y: Seq<(Seq<u8>, Val)>, key: Seq<u8>, i: int)
    requires
        says_same(Val::Dict(x), Val::Dict(y)),
        0 <= i,
    ensures
        key_from(x, key, i) == key_from(y, key, i),
    decreases x.len() - i,
{
    if i < x.len() {
        lemma_entry_same(Val::Dict(x), Val::Dict(y), i);
        lemma_key_same(x, y, key, i + 1);
    }
}

proof fn lemma_get_bytes(
    x: Seq<(Seq<u8>, Val)>,
    y: Seq<(Seq<u8>, Val)>,
    key: Seq<u8>,
    ids: Set<ObjId>,
)
    requires
        says_same(Val::Dict(x), Val::Dict(y)),
        refers_within(Val::Dict(x), ids),
    ensures
        key_from(x, key, 0) == key_from(y, key, 0),
        match key_from(x, key, 0) {
            Some(k) => {
                &&& 0 <= k < x.len() == y.len()
                &&& says_same(x[k].1, y[k].1)
                &&& refers_within(x[k].1, ids)
                &&& key == bytes_of("Ff"@) ==> x[k].1 == y[k].1
            },
            None => true,
        },
{
    lemma_key_same(x, y, key, 0);
    lemma_key_from(x, key, 0);
    if let Some(k) = key_from(x, key, 0) {
        lemma_entry_same(Val::Dict(x), Val::Dict(y), k);
        lemma_entry_within(Val::Dict(x), ids, k);
    }
}

proof fn lemma_entry_within(v: Val, ids: Set<ObjId>, i: int)
    requires
        refers_within(v, ids),
        v is Dict,
        0 <= i < v->Dict_0.len(),
    ensures
        refers_within(v->Dict_0[i].1, ids),
{
    let e = v->Dict_0[i];
}

proof fn lemma_item_within(v: Val, ids: Set<ObjId>, i: int)
    requires
        refers_within(v, ids),
        v is Array,
        0 <= i < v->Array_0.len(),
    ensures
        refers_within(v->Array_0[i], ids),
{
    let e = v->Array_0[i];
}

/// Whether a dictionary and its copy say the same and stay within `ids`.
spec fn is_pair(d: Seq<(Seq<u8>, Val)>, e: Seq<(Seq<u8>, Val)>, ids: Set<ObjId>) -> bool {
    says_same(Val::Dict(d), Val::Dict(e)) && refers_within(Val::Dict(d), ids)
}

proof fn lemma_get_copy(
    d: Seq<(Seq<u8>, Val)>,
    e: Seq<(Seq<u8>, Val)>,
    ids: Set<ObjId>,
    key: Seq<char>,
)
    requires
        is_pair(d, e, ids),
    ensures
        both_say(dict_get(d, key), dict_get(e, key)),
        dict_get(d, key) matches Some(v) ==> refers_within(v, ids),
        key == "Ff"@ ==> dict_get(d, key) == dict_get(e, key),
{
    lemma_get_bytes(d, e, bytes_of(key), ids);
}

proof fn lemma_resolved_copy(p: PdfView, r: PdfView, ids: Set<ObjId>, v: Val, u: Val)
    requires
        is_copy(p, r, ids),
        says_same(v, u),
        refers_within(v, ids),
    ensures
        both_say(resolved(p, v), resolved(r, u)),
        v == u ==> both_are(resolved(p, v), resolved(r, u)),
        resolved(p, v) matches Some(x) ==> refers_within(x, ids),
{
    if let Val::Ref(id) = v {
        assert(ids.contains(id));
    }
}

/// What an entry leads to, in a dictionary and in its copy.
proof fn lemma_look_copy(
    p: PdfView,
    r: PdfView,
    ids: Set<ObjId>,
    d: Seq<(Seq<u8>, Val)>,
    e: Seq<(Seq<u8>, Val)>,
    key: Seq<char>,
)
    requires
        is_copy(p, r, ids),
        is_pair(d, e, ids),
    ensures
        both_say(dict_get(d, key), dict_get(e, key)),
        dict_get(d, key) matches Some(v) ==> both_say(
            resolved(p, v),
            resolved(r, dict_get(e, key)->0),
        ) && (resolved(p, v) matches Some(x) ==> refers_within(x, ids)),
        dict_in(p, d, key) is Some == dict_in(r, e, key) is Some,
        dict_in(p, d, key) is Some ==> is_pair(dict_in(p, d, key)->0, dict_in(r, e, key)->0, ids),
{
    lemma_get_copy(d, e, ids, key);
    if let Some(v) = dict_get(d, key) {
        lemma_resolved_copy(p, r, ids, v, dict_get(e, key)->0);
    }
}

proof fn lemma_attr_copy(
    p: PdfView,
    r: PdfView,
    ids: Set<ObjId>,
    d: Seq<(Seq<u8>, Val)>,
    e: Seq<(Seq<u8>, Val)>,
    key: Seq<char>,
    left: nat,
)
    requires
        is_copy(p, r, ids),
        is_pair(d, e, ids),
    ensures
        both_say(attr(p, d, key, left), attr(r, e, key, left)),
        key == "Ff"@ ==> both_are(attr(p, d, key, left), attr(r, e, key, left)),
    decreases left,
{
    if left > 0 {
        lemma_look_copy(p, r, ids, d, e, key);
        lemma_look_copy(p, r, ids, d, e, "Parent"@);
        lemma_get_copy(d, e, ids, key);
        match dict_get(d, key) {
            Some(v) => {
                lemma_resolved_copy(p, r, ids, v, dict_get(e, key)->0);
            },
            None => {
                if let Some(up) = dict_in(p, d, "Parent"@) {
                    let above = dict_in(r, e, "Parent"@)->0;
                    lemma_attr_copy(p, r, ids, up, above, key, (left - 1) as nat);
                }
            },
        }
    }
}

proof fn lemma_names_copy(
    p: PdfView,
    r: PdfView,
    ids: Set<ObjId>,
    d: Seq<(Seq<u8>, Val)>,
    e: Seq<(Seq<u8>, Val)>,
    parts: Seq<Seq<char>>,
    left: nat,
)
    requires
        is_copy(p, r, ids),
        is_pair(d, e, ids),
    ensures
        names_up(p, d, parts, left) == names_up(r, e, parts, left),
    decreases left,
{
    if left > 0 {
        lemma_look_copy(p, r, ids, d, e, "T"@);
        lemma_look_copy(p, r, ids, d, e, "Parent"@);
        let own = match dict_get(d, "T"@) {
            Some(v) => resolved(p, v),
            None => None,
        };
        let next = match own {
            Some(Val::Str(s, _)) => parts.push(decoded(s)),
            _ => parts,
        };
        if let Some(up) = dict_in(p, d, "Parent"@) {
            let above = dict_in(r, e, "Parent"@)->0;
            lemma_names_copy(p, r, ids, up, above, next, (left - 1) as nat);
        }
    }
}

// --- Fields ---

/// Whether two entries of the list of fields say the same of a widget, its
/// rectangle and its options left aside.
pub open spec fn reads_same(a: FieldView, b: FieldView) -> bool {
    &&& a.name == b.name
    &&& a.kind == b.kind
    &&& a.page == b.page
    &&& a.read_only == b.read_only
    &&& a.value == b.value
}

proof fn lemma_rect_copy(
    p: PdfView,
    r: PdfView,
    ids: Set<ObjId>,
    d: Seq<(Seq<u8>, Val)>,
    e: Seq<(Seq<u8>, Val)>,
)
    requires
        is_copy(p, r, ids),
        is_pair(d, e, ids),
    ensures
        rect_at(p, d) is Some == rect_at(r, e) is Some,
{
    lemma_look_copy(p, r, ids, d, e, "Rect"@);
    if let Some(v) = dict_get(d, "Rect"@) {
        if let Some(Val::Array(a)) = resolved(p, v) {
            let b = resolved(r, dict_get(e, "Rect"@)->0)->0;
            if a.len() >= 4 {
                lemma_item_same(Val::Array(a), b, 0);
                lemma_item_same(Val::Array(a), b, 1);
                lemma_item_same(Val::Array(a), b, 2);
                lemma_item_same(Val::Array(a), b, 3);
            }
        }
    }
}

proof fn lemma_described_copy(
    p: PdfView,
    r: PdfView,
    ids: Set<ObjId>,
    d: Seq<(Seq<u8>, Val)>,
    e: Seq<(Seq<u8>, Val)>,
    page: int,
)
    requires
        is_copy(p, r, ids),
        is_pair(d, e, ids),
    ensures
        is_widget(d) == is_widget(e),
        described(p, d, page) is Some == described(r, e, page) is Some,
        described(p, d, page) is Some ==> reads_same(
            described(p, d, page)->0,
            described(r, e, page)->0,
        ),
{
    let left = PARENT_LIMIT as nat;
    lemma_get_copy(d, e, ids, "Subtype"@);
    lemma_get_copy(d, e, ids, "AS"@);
    lemma_attr_copy(p, r, ids, d, e, "FT"@, left);
    lemma_attr_copy(p, r, ids, d, e, "Ff"@, left);
    lemma_attr_copy(p, r, ids, d, e, "V"@, left);
    lemma_names_copy(p, r, ids, d, e, seq![], left);
    lemma_rect_copy(p, r, ids, d, e);
    assert(flags_of(p, d) == flags_of(r, e));
    assert(kind_at(p, d) == kind_at(r, e));
    assert(full_name(p, d) == full_name(r, e));
    if let Some(kind) = kind_at(p, d) {
        assert(value_at(p, d, kind) == value_at(r, e, kind));
    }
}

/// Whether two lists of fields say the same, entry by entry.
pub open spec fn all_read_same(a: Seq<FieldView>, b: Seq<FieldView>) -> bool {
    a.len() == b.len() && forall|k: int|
        #![trigger a[k]]
        #![trigger b[k]]
        0 <= k < a.len() ==> reads_same(a[k], b[k])
}

proof fn lemma_annots_copy(
    p: PdfView,
    r: PdfView,
    ids: Set<ObjId>,
    a: Seq<Val>,
    b: Seq<Val>,
    m: int,
    page: int,
)
    requires
        is_copy(p, r, ids),
        says_same(Val::Array(a), Val::Array(b)),
        refers_within(Val::Array(a), ids),
        0 <= m <= a.len(),
    ensures
        all_read_same(annots_upto(p, a, m, page), annots_upto(r, b, m, page)),
    decreases m,
{
    if m > 0 {
        lemma_annots_copy(p, r, ids, a, b, m - 1, page);
        lemma_item_same(Val::Array(a), Val::Array(b), m - 1);
        lemma_item_within(Val::Array(a), ids, m - 1);
        lemma_resolved_copy(p, r, ids, a[m - 1], b[m - 1]);
        if let Some(d) = as_dict(resolved(p, a[m - 1])) {
            let e = as_dict(resolved(r, b[m - 1]))->0;
            lemma_described_copy(p, r, ids, d, e, page);
        }
    }
}

proof fn lemma_fields_copy(p: PdfView, r: PdfView, ids: Set<ObjId>, n: int)
    requires
        is_copy(p, r, ids),
        0 <= n <= p.pages.len(),
    ensures
        all_read_same(fields_upto(p, n), fields_upto(r, n)),
    decreases n,
{
    if n > 0 {
        lemma_fields_copy(p, r, ids, n - 1);
        let page = p.pages[n - 1];
        assert(ids.contains(page));
        lemma_resolved_copy(p, r, ids, Val::Ref(page), Val::Ref(page));
        if let Some(d) = as_dict(object_at(p, page)) {
            let e = as_dict(object_at(r, page))->0;
            lemma_look_copy(p, r, ids, d, e, "Annots"@);
        }
        assert(annots_at(p, page) is Some == annots_at(r, page) is Some);
        if let Some(a) = annots_at(p, page) {
            let b = annots_at(r, page)->0;
            lemma_annots_copy(p, r, ids, a, b, a.len() as int, n - 1);
            let (x, y) = (fields_upto(p, n - 1), fields_upto(r, n - 1));
            let (s, t) = (
                annots_upto(p, a, a.len() as int, n - 1),
                annots_upto(r, b, b.len() as int, n - 1),
            );
            assert forall|k: int|
                #![trigger (x + s)[k]]
                #![trigger (y + t)[k]]
                0 <= k < (x + s).len() implies reads_same((x + s)[k], (y + t)[k]) by {
                if k < x.len() {
                    assert(reads_same(x[k], y[k]));
                } else {
                    assert(reads_same(s[k - x.len()], t[k - x.len()]));
                }
            }
        }
    }
}

/// Whether two lists hold the same fields in the same order, by name, kind and
/// page.
pub open spec fn same_fields(a: Seq<FieldView>, b: Seq<FieldView>) -> bool {
    a.len() == b.len() && forall|k: int|
        #![trigger a[k]]
        #![trigger b[k]]
        0 <= k < a.len() ==> a[k].name == b[k].name && a[k].kind == b[k].kind && a[k].page
            == b[k].page && a[k].read_only == b[k].read_only
}

/// Setting a field reads back from the file: where the file that is written
/// reads as a copy of the document that it was written for, it lists the same
/// fields, and every writable one of the name holds the value.
pub proof fn law_set_file_reads_back(
    bytes: Seq<u8>,
    p: PdfView,
    field: Seq<char>,
    value: Seq<char>,
    fits: Seq<FitView>,
    out: Seq<u8>,
    r: PdfView,
    ids: Set<ObjId>,
)
    requires
        is_self_contained(p),
        p.max_id + 2 * named_upto(p, field, p.objects.len() as int).len() <= u32::MAX,
        forall|n: int, m: int|
            0 <= n < p.pages.len() && 0 <= m < annots_of(p, n).len() ==> can_be_set(
                p,
                #[trigger] annots_of(p, n)[m],
                field,
                fits,
            ),
        is_copy(set_pdf(p, field, value, fits).pdf, r, ids),
    ensures
        pdf_read(bytes) == Some(p) && set_file(bytes, field, value, fits) == Some(out) && pdf_read(
            out,
        ) == Some(r) ==> {
            &&& same_fields(fields_of(bytes), fields_of(out))
            &&& all_hold(fields_of(out), field, value, true)
        },
{
    let q = set_pdf(p, field, value, fits).pdf;
    let n = p.pages.len() as int;
    law_setting_keeps_the_list(p, field, value, fits);
    law_set_field_is_listed(p, field, value, fits);
    lemma_set_carries(p, field, value, fits);
    lemma_fields_copy(q, r, ids, n);
    let (x, y, z) = (fields_upto(p, n), fields_upto(q, n), fields_upto(r, n));
    assert(same_fields(x, z)) by {
        assert forall|k: int|
            #![trigger x[k]]
            #![trigger z[k]]
            0 <= k < x.len() implies x[k].name == z[k].name && x[k].kind == z[k].kind && x[k].page
            == z[k].page && x[k].read_only == z[k].read_only by {
            assert(reads_same(y[k], z[k]));
        }
    }
    let done = set_pdf(p, field, value, fits).changed;
    assert forall|k: int|
        0 <= k < z.len() && (#[trigger] z[k]).name == field && is_writable(z[k]) implies z[k].value
        == value && done by {
        assert(reads_same(y[k], z[k]));
        assert(y[k].name == field);
    }
}

// --- Normalizing ---

proof fn lemma_quiet_copy(p: PdfView, r: PdfView, ids: Set<ObjId>, id: ObjId, fits: Seq<FitView>)
    requires
        is_copy(p, r, ids),
        ids.contains(id),
        is_quiet(p, id, fits),
    ensures
        is_quiet(r, id, fits),
{
    lemma_resolved_copy(p, r, ids, Val::Ref(id), Val::Ref(id));
    if let Some(d) = as_dict(object_at(p, id)) {
        let e = as_dict(object_at(r, id))->0;
        let left = PARENT_LIMIT as nat;
        lemma_get_copy(d, e, ids, "AS"@);
        lemma_get_copy(d, e, ids, "AP"@);
        lemma_attr_copy(p, r, ids, d, e, "FT"@, left);
        lemma_attr_copy(p, r, ids, d, e, "V"@, left);
        assert(unseen_text(p, id) == unseen_text(r, id));
        lemma_look_copy(p, r, ids, d, e, "AP"@);
        if let Some(a) = dict_in(p, d, "AP"@) {
            lemma_look_copy(p, r, ids, a, dict_in(r, e, "AP"@)->0, "N"@);
        }
        if let Some(Val::Name(state)) = dict_get(d, "AS"@) {
            if let Some(s) = states_at(p, d) {
                lemma_get_bytes(s, states_at(r, e)->0, state, ids);
            }
        }
        assert(both_say(state_at(p, id), state_at(r, id)));
    }
}

/// A normalized file is left alone: where the file that is written reads as a
/// copy of the document that it was written for, a second pass finds nothing to
/// do. This leaves out widgets whose state is drawn as a choice that again has
/// that state.
pub proof fn law_normal_file_is_left_alone(
    bytes: Seq<u8>,
    p: PdfView,
    fits: Seq<FitView>,
    out: Seq<u8>,
    r: PdfView,
    ids: Set<ObjId>,
)
    requires
        is_numbered(p),
        forall|k: int|
            0 <= k < widgets_upto(p.objects, p.objects.len() as int).len() ==> settles(
                p,
                #[trigger] widgets_upto(p.objects, p.objects.len() as int)[k],
            ),
        is_copy(normal_pdf(p, fits).pdf, r, ids),
    ensures
        pdf_read(bytes) == Some(p) && normal_file(bytes, fits) == Some(out) && pdf_read(out)
            == Some(r) ==> normal_file(out, fits) is None,
{
    let q = normal_pdf(p, fits).pdf;
    let known = widgets_upto(q.objects, q.objects.len() as int);
    let now = widgets_upto(r.objects, r.objects.len() as int);
    lemma_normal_quiet(p, fits);
    assert forall|k: int| 0 <= k < now.len() implies is_quiet(r, #[trigger] now[k], fits) by {
        assert(now.contains(now[k]));
        let i = choose|i: int| 0 <= i < known.len() && known[i] == now[k];
        assert(is_quiet(q, known[i], fits));
        lemma_quiet_copy(q, r, ids, now[k], fits);
    }
    lemma_all_quiet(untouched(r), now, 0, fits);
}

} // verus!
