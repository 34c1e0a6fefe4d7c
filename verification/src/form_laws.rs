//! What holds of form fields: a value that was set reads back, and a widget
//! that was given an appearance keeps it.
use crate::form_edits::{
    drawn_as, fit_from, font_dict, line_object, name, owner_of, state_at, switch_state, unseen_text,
    with_font, with_line, with_set, with_state, with_text, with_value, FitView, Work,
};
use crate::forms::{
    attr, field_value, flags_of, is_read_only, is_switch, kind_at, value_at, FieldKind,
    PARENT_LIMIT,
};
use crate::pdf::{
    added, as_dict, bytes_of, dict_get, dict_in, dict_set, end_from, entry_set, law_set_then_get,
    lemma_end_from, lemma_object_from, object_at, object_from, ObjId, PdfView, Val, DEREF_LIMIT,
};
use crate::pdf_text::{law_text_string_reads_back, text_string};
use vstd::prelude::*;
use vstd::utf8::{encode_utf8_decode_utf8, encode_utf8_valid_utf8, is_ascii_chars};
use vstd::utf8::is_ascii_chars_encode_utf8;

verus! {

/// Whether a widget's field is found within the limit, at a dictionary, with no
/// value of its own on the way there.
pub open spec fn reaches_owner(p: PdfView, id: ObjId, left: nat) -> bool
    decreases left,
{
    left > 0 && match as_dict(object_at(p, id)) {
        Some(d) => if dict_get(d, "FT"@) is Some {
            true
        } else {
            match dict_get(d, "Parent"@) {
                Some(Val::Ref(up)) => dict_get(d, "V"@) is None && reaches_owner(
                    p,
                    up,
                    (left - 1) as nat,
                ),
                _ => true,
            }
        },
        None => false,
    }
}

/// Whether no object has a number above the greatest.
pub open spec fn is_numbered(p: PdfView) -> bool {
    forall|i: int| 0 <= i < p.objects.len() ==> (#[trigger] p.objects[i]).0.num <= p.max_id
}

pub(crate) proof fn lemma_ascii_differ(a: Seq<char>, b: Seq<char>)
    requires
        is_ascii_chars(a),
        is_ascii_chars(b),
        a.len() != b.len(),
    ensures
        bytes_of(a) != bytes_of(b),
{
    is_ascii_chars_encode_utf8(a);
    is_ascii_chars_encode_utf8(b);
}

pub(crate) proof fn lemma_keys_differ()
    ensures
        bytes_of("AP"@) != bytes_of("V"@),
        bytes_of("AP"@) != bytes_of("Parent"@),
        bytes_of("AS"@) != bytes_of("V"@),
        bytes_of("AS"@) != bytes_of("Parent"@),
{
    reveal_strlit("AP");
    reveal_strlit("AS");
    reveal_strlit("V");
    reveal_strlit("Parent");
    lemma_ascii_differ("AP"@, "V"@);
    lemma_ascii_differ("AP"@, "Parent"@);
    lemma_ascii_differ("AS"@, "V"@);
    lemma_ascii_differ("AS"@, "Parent"@);
}

// --- Changing one object ---

proof fn lemma_object_update(all: Seq<(ObjId, Val)>, k: int, v: Val, id: ObjId, i: int)
    requires
        0 <= k < all.len(),
        0 <= i,
    ensures
        object_from(all.update(k, (all[k].0, v)), id, i) == object_from(all, id, i),
    decreases all.len() - i,
{
    if i < all.len() {
        lemma_object_update(all, k, v, id, i + 1);
    }
}

proof fn lemma_end_update(all: Seq<(ObjId, Val)>, k: int, v: Val, id: ObjId, left: nat)
    requires
        0 <= k < all.len(),
        !(all[k].1 is Ref),
        !(v is Ref),
    ensures
        end_from(all.update(k, (all[k].0, v)), id, left) == end_from(all, id, left),
    decreases left,
{
    lemma_object_update(all, k, v, id, 0);
    lemma_object_from(all, id, 0);
    if let Some(j) = object_from(all, id, 0) {
        if let Val::Ref(next) = all[j].1 {
            if left > 0 {
                lemma_end_update(all, k, v, next, (left - 1) as nat);
            }
        }
    }
}

/// What an id leads to after an entry was set.
pub(crate) proof fn lemma_set_object(p: PdfView, id: ObjId, key: Seq<char>, x: Val, other: ObjId)
    requires
        as_dict(object_at(p, id)) is Some,
    ensures
        ({
            let q = entry_set(p, id, key, x).0;
            let k = end_from(p.objects, id, DEREF_LIMIT as nat)->0;
            let d = as_dict(object_at(p, id))->0;
            &&& entry_set(p, id, key, x).1
            &&& end_from(q.objects, other, DEREF_LIMIT as nat) == end_from(
                p.objects,
                other,
                DEREF_LIMIT as nat,
            )
            &&& object_at(q, other) == if end_from(p.objects, other, DEREF_LIMIT as nat) == Some(
                k,
            ) {
                Some(Val::Dict(dict_set(d, key, x)))
            } else {
                object_at(p, other)
            }
        }),
{
    let k = end_from(p.objects, id, DEREF_LIMIT as nat)->0;
    let d = as_dict(object_at(p, id))->0;
    lemma_end_from(p.objects, id, DEREF_LIMIT as nat);
    lemma_end_from(p.objects, other, DEREF_LIMIT as nat);
    lemma_end_update(
        p.objects,
        k,
        Val::Dict(dict_set(d, key, x)),
        other,
        DEREF_LIMIT as nat,
    );
}

/// An attribute that is no dictionary stays when another entry is set, for a
/// dictionary as it was and as it is then.
proof fn lemma_attr_set(
    p: PdfView,
    id: ObjId,
    key: Seq<char>,
    x: Val,
    d: Seq<(Seq<u8>, Val)>,
    wanted: Seq<char>,
    left: nat,
)
    requires
        as_dict(object_at(p, id)) is Some,
        bytes_of(key) != bytes_of(wanted),
        bytes_of(key) != bytes_of("Parent"@),
        attr(p, d, wanted, left) is Some,
        !(attr(p, d, wanted, left)->0 is Dict),
    ensures
        attr(entry_set(p, id, key, x).0, d, wanted, left) == attr(p, d, wanted, left),
        attr(entry_set(p, id, key, x).0, dict_set(d, key, x), wanted, left) == attr(
            p,
            d,
            wanted,
            left,
        ),
    decreases left,
{
    let q = entry_set(p, id, key, x).0;
    let e = dict_set(d, key, x);
    law_set_then_get(d, key, x, wanted);
    law_set_then_get(d, key, x, "Parent"@);
    match dict_get(d, wanted) {
        Some(v) => {
            if let Val::Ref(r) = v {
                lemma_set_object(p, id, key, x, r);
            }
        },
        None => {
            let up = dict_in(p, d, "Parent"@)->0;
            lemma_attr_set(p, id, key, x, up, wanted, (left - 1) as nat);
            match dict_get(d, "Parent"@) {
                Some(Val::Ref(r)) => {
                    lemma_set_object(p, id, key, x, r);
                    let own = as_dict(object_at(p, id))->0;
                    if end_from(p.objects, r, DEREF_LIMIT as nat) == end_from(
                        p.objects,
                        id,
                        DEREF_LIMIT as nat,
                    ) {
                        assert(own == up);
                    }
                },
                _ => {},
            }
        },
    }
}

// --- Adding objects ---

proof fn lemma_object_push(all: Seq<(ObjId, Val)>, e: (ObjId, Val), id: ObjId, i: int)
    requires
        0 <= i,
        object_from(all, id, i) is Some,
    ensures
        object_from(all.push(e), id, i) == object_from(all, id, i),
    decreases all.len() - i,
{
    if i < all.len() && all[i].0 != id {
        lemma_object_push(all, e, id, i + 1);
    }
}

proof fn lemma_end_push(all: Seq<(ObjId, Val)>, e: (ObjId, Val), id: ObjId, left: nat)
    requires
        end_from(all, id, left) is Some,
    ensures
        end_from(all.push(e), id, left) == end_from(all, id, left),
    decreases left,
{
    lemma_object_push(all, e, id, 0);
    lemma_object_from(all, id, 0);
    let j = object_from(all, id, 0)->0;
    if let Val::Ref(next) = all[j].1 {
        lemma_end_push(all, e, next, (left - 1) as nat);
    }
}

/// An object that is added under a fresh number changes no other.
pub(crate) proof fn lemma_added(p: PdfView, v: Val, id: ObjId)
    requires
        is_numbered(p),
        p.max_id < u32::MAX,
    ensures
        is_numbered(added(p, v).0),
        added(p, v).1 is Some,
        added(p, v).0.max_id == p.max_id + 1,
        object_at(p, id) is Some ==> object_at(added(p, v).0, id) == object_at(p, id),
        object_at(p, id) is Some ==> end_from(added(p, v).0.objects, id, DEREF_LIMIT as nat)
            == end_from(p.objects, id, DEREF_LIMIT as nat),
{
    let fresh = ObjId { num: (p.max_id + 1) as u32, gen: 0 };
    let q = added(p, v).0;
    lemma_object_from(p.objects, fresh, 0);
    if let Some(k) = object_from(p.objects, fresh, 0) {
        assert(p.objects[k].0.num <= p.max_id);
    }
    assert(q.objects == p.objects.push((fresh, v)));
    assert forall|i: int| 0 <= i < q.objects.len() implies (#[trigger] q.objects[i]).0.num
        <= q.max_id by {
        if i < p.objects.len() {
            assert(q.objects[i] == p.objects[i]);
        }
    }
    if object_at(p, id) is Some {
        lemma_end_push(p.objects, (fresh, v), id, DEREF_LIMIT as nat);
        lemma_end_from(p.objects, id, DEREF_LIMIT as nat);
    }
}

pub(crate) proof fn lemma_attr_added(
    p: PdfView,
    v: Val,
    d: Seq<(Seq<u8>, Val)>,
    wanted: Seq<char>,
    left: nat,
)
    requires
        is_numbered(p),
        p.max_id < u32::MAX,
        attr(p, d, wanted, left) is Some,
    ensures
        attr(added(p, v).0, d, wanted, left) == attr(p, d, wanted, left),
    decreases left,
{
    match dict_get(d, wanted) {
        Some(x) => {
            if let Val::Ref(r) = x {
                lemma_added(p, v, r);
            }
        },
        None => {
            let up = dict_in(p, d, "Parent"@)->0;
            if let Some(Val::Ref(r)) = dict_get(d, "Parent"@) {
                lemma_added(p, v, r);
            }
            lemma_attr_added(p, v, up, wanted, (left - 1) as nat);
        },
    }
}

// --- Setting a value ---

proof fn lemma_value_up(p: PdfView, id: ObjId, v: Val, c: ObjId, left: nat)
    requires
        !(v is Ref),
        reaches_owner(p, c, left),
        owner_of(p, c, left) == owner_of(p, id, PARENT_LIMIT as nat),
    ensures
        ({
            let q = with_value(p, id, v);
            &&& as_dict(object_at(q, c)) is Some
            &&& attr(q, as_dict(object_at(q, c))->0, "V"@, left) == Some(v)
        }),
    decreases left,
{
    let o = owner_of(p, id, PARENT_LIMIT as nat);
    let q = with_value(p, id, v);
    let d = as_dict(object_at(p, c))->0;
    lemma_owner_dict(p, c, left);
    lemma_set_object(p, o, "V"@, v, c);
    let own = as_dict(object_at(p, o))->0;
    law_set_then_get(own, "V"@, v, "V"@);
    let k = end_from(p.objects, o, DEREF_LIMIT as nat);
    if end_from(p.objects, c, DEREF_LIMIT as nat) == k {
        assert(as_dict(object_at(q, c))->0 == dict_set(own, "V"@, v));
    } else if dict_get(d, "FT"@) is None {
        match dict_get(d, "Parent"@) {
            Some(Val::Ref(up)) => {
                lemma_value_up(p, id, v, up, (left - 1) as nat);
                assert(object_at(q, c) == object_at(p, c));
            },
            _ => {},
        }
    }
}

pub(crate) proof fn lemma_owner_dict(p: PdfView, id: ObjId, left: nat)
    requires
        reaches_owner(p, id, left),
    ensures
        as_dict(object_at(p, owner_of(p, id, left))) is Some,
    decreases left,
{
    let d = as_dict(object_at(p, id))->0;
    if dict_get(d, "FT"@) is None {
        if let Some(Val::Ref(up)) = dict_get(d, "Parent"@) {
            lemma_owner_dict(p, up, (left - 1) as nat);
        }
    }
}

/// The value of a field that was set reads back from each of its widgets, where
/// the field is found within the limit and no dictionary below it has a value
/// of its own.
pub proof fn law_value_reads_back(p: PdfView, id: ObjId, v: Val)
    requires
        !(v is Ref),
        reaches_owner(p, id, PARENT_LIMIT as nat),
    ensures
        ({
            let q = with_value(p, id, v);
            &&& as_dict(object_at(q, id)) is Some
            &&& field_value(q, as_dict(object_at(q, id))->0, "V"@) == Some(v)
        }),
{
    lemma_value_up(p, id, v, id, PARENT_LIMIT as nat);
}

proof fn lemma_value_numbered(p: PdfView, id: ObjId, v: Val)
    requires
        is_numbered(p),
    ensures
        is_numbered(with_value(p, id, v)),
        with_value(p, id, v).max_id == p.max_id,
{
    let o = owner_of(p, id, PARENT_LIMIT as nat);
    let q = with_value(p, id, v);
    lemma_end_from(p.objects, o, DEREF_LIMIT as nat);
    assert forall|i: int| 0 <= i < q.objects.len() implies (#[trigger] q.objects[i]).0.num
        <= q.max_id by {
        assert(q.objects[i].0 == p.objects[i].0);
    }
}

/// The widget keeps the value of its field when it is given an appearance.
proof fn lemma_line_keeps(w: Work, id: ObjId, fit: FitView, text: Seq<char>, v: Val)
    requires
        is_numbered(w.pdf),
        w.pdf.max_id <= u32::MAX - 2,
        as_dict(object_at(w.pdf, id)) is Some,
        field_value(w.pdf, as_dict(object_at(w.pdf, id))->0, "V"@) == Some(v),
        !(v is Dict),
    ensures
        ({
            let q = with_line(w, id, fit, text).pdf;
            &&& as_dict(object_at(q, id)) is Some
            &&& field_value(q, as_dict(object_at(q, id))->0, "V"@) == Some(v)
            &&& with_line(w, id, fit, text).changed
        }),
{
    let d = as_dict(object_at(w.pdf, id))->0;
    let f = with_font(w);
    if w.font is None {
        lemma_added(w.pdf, font_dict(), id);
        lemma_attr_added(w.pdf, font_dict(), d, "V"@, PARENT_LIMIT as nat);
    }
    let line = line_object(fit, text, f.font->0);
    let (p, x) = added(f.pdf, line);
    lemma_added(f.pdf, line, id);
    lemma_attr_added(f.pdf, line, d, "V"@, PARENT_LIMIT as nat);
    lemma_keys_differ();
    let ap = drawn_as(x->0);
    lemma_set_object(p, id, "AP"@, ap, id);
    lemma_attr_set(p, id, "AP"@, ap, d, "V"@, PARENT_LIMIT as nat);
}

/// Setting a text or choice field: the field then holds that text, and the
/// document counts as changed.
pub proof fn law_text_reads_back(
    w: Work,
    id: ObjId,
    value: Seq<char>,
    fits: Seq<FitView>,
    kind: FieldKind,
)
    requires
        is_numbered(w.pdf),
        w.pdf.max_id <= u32::MAX - 2,
        reaches_owner(w.pdf, id, PARENT_LIMIT as nat),
        kind_at(w.pdf, as_dict(object_at(w.pdf, id))->0) == Some(kind),
        kind == FieldKind::Text || kind == FieldKind::Choice,
        !is_read_only(flags_of(w.pdf, as_dict(object_at(w.pdf, id))->0)),
        fit_from(fits, id, 0) is Some,
    ensures
        ({
            let r = with_set(w, id, value, fits);
            &&& r.changed
            &&& as_dict(object_at(r.pdf, id)) is Some
            &&& value_at(r.pdf, as_dict(object_at(r.pdf, id))->0, kind) == value
        }),
{
    let v = Val::Str(text_string(value), false);
    let p = with_value(w.pdf, id, v);
    law_value_reads_back(w.pdf, id, v);
    lemma_value_numbered(w.pdf, id, v);
    let fit = fits[fit_from(fits, id, 0)->0];
    lemma_line_keeps(Work { pdf: p, ..w }, id, fit, value, v);
    law_text_string_reads_back(value);
}

/// Switching a checkbox or radio button: the field then holds the state that
/// was asked for, and the document counts as changed.
pub proof fn law_switch_reads_back(
    w: Work,
    id: ObjId,
    value: Seq<char>,
    fits: Seq<FitView>,
    kind: FieldKind,
)
    requires
        reaches_owner(w.pdf, id, PARENT_LIMIT as nat),
        kind_at(w.pdf, as_dict(object_at(w.pdf, id))->0) == Some(kind),
        is_switch(kind),
        !is_read_only(flags_of(w.pdf, as_dict(object_at(w.pdf, id))->0)),
    ensures
        ({
            let r = with_set(w, id, value, fits);
            &&& r.changed
            &&& as_dict(object_at(r.pdf, id)) is Some
            &&& value_at(r.pdf, as_dict(object_at(r.pdf, id))->0, kind) == value
        }),
{
    let d = as_dict(object_at(w.pdf, id))->0;
    let v = name(value);
    let p = with_value(w.pdf, id, v);
    law_value_reads_back(w.pdf, id, v);
    let e = as_dict(object_at(p, id))->0;
    let x = name(switch_state(w.pdf, d, value));
    lemma_keys_differ();
    lemma_set_object(p, id, "AS"@, x, id);
    lemma_attr_set(p, id, "AS"@, x, e, "V"@, PARENT_LIMIT as nat);
    encode_utf8_valid_utf8(value);
    encode_utf8_decode_utf8(value);
}

// --- Appearances ---

/// A widget whose state was resolved stays as it is, unless what it is drawn as
/// is again a choice of states.
pub proof fn law_resolved_state_stays(w: Work, id: ObjId, target: ObjId)
    requires
        state_at(w.pdf, id) == Some(Val::Ref(target)),
        as_dict(object_at(with_state(w, id).pdf, target)) is None,
    ensures
        with_state(with_state(w, id), id) == with_state(w, id),
{
    let d = as_dict(object_at(w.pdf, id))->0;
    let ap = drawn_as(target);
    let r = with_state(w, id);
    lemma_set_object(w.pdf, id, "AP"@, ap, id);
    law_set_then_get(d, "AP"@, ap, "AP"@);
    law_set_then_get(seq![], "N"@, Val::Ref(target), "N"@);
}

/// A text widget that was given an appearance asks for none again.
pub proof fn law_drawn_text_stays(w: Work, id: ObjId, fits: Seq<FitView>)
    requires
        is_numbered(w.pdf),
        w.pdf.max_id <= u32::MAX - 2,
        unseen_text(w.pdf, id) is Some,
        fit_from(fits, id, 0) is Some,
    ensures
        with_text(w, id, fits).changed,
        unseen_text(with_text(w, id, fits).pdf, id) is None,
        with_text(with_text(w, id, fits), id, fits) == with_text(w, id, fits),
{
    let text = unseen_text(w.pdf, id)->0;
    let fit = fits[fit_from(fits, id, 0)->0];
    let f = with_font(w);
    if w.font is None {
        lemma_added(w.pdf, font_dict(), id);
    }
    let line = line_object(fit, text, f.font->0);
    let (p, x) = added(f.pdf, line);
    lemma_added(f.pdf, line, id);
    let d = as_dict(object_at(p, id))->0;
    let ap = drawn_as(x->0);
    lemma_set_object(p, id, "AP"@, ap, id);
    law_set_then_get(d, "AP"@, ap, "AP"@);
}

} // verus!
