//! What holds of a normalized document: normalizing it again changes nothing.
use crate::form_edits::{
    drawn_as, fit_from, font_dict, line_object, name, normal_from, normal_pdf, state_at,
    unseen_text, untouched, widgets_upto, with_font, with_state, with_text, FitView, Work,
};
use crate::form_laws::{
    is_numbered, lemma_added, lemma_ascii_differ, lemma_set_object,
};
use crate::forms::{attr, field_value, is_widget, PARENT_LIMIT};
use crate::pdf::{
    added, as_dict, bytes_of, dict_get, dict_in, dict_set, end_from, entry_set, key_from,
    law_set_then_get, lemma_end_from, lemma_key_from, lemma_object_from, object_at, object_from,
    resolved, ObjId, PdfView, Val, DEREF_LIMIT,
};
use vstd::prelude::*;
use vstd::utf8::is_ascii_chars;

verus! {

// --- Entries ---

/// What a dictionary, where there is one, has under a key.
pub open spec fn entry_at(d: Option<Seq<(Seq<u8>, Val)>>, key: Seq<u8>) -> Option<Val> {
    match d {
        Some(d) => match key_from(d, key, 0) {
            Some(k) => Some(d[k].1),
            None => None,
        },
        None => None,
    }
}

/// Whether a state can be drawn: it is an object, or becomes one.
pub open spec fn is_drawn(v: Option<Val>) -> bool {
    v matches Some(Val::Ref(_)) || v matches Some(Val::Stream(_, _))
}

proof fn lemma_entry_set(d: Seq<(Seq<u8>, Val)>, key: Seq<char>, x: Val, k: Seq<u8>)
    ensures
        entry_at(Some(dict_set(d, key, x)), k) == if k == bytes_of(key) {
            Some(x)
        } else {
            entry_at(Some(d), k)
        },
{
    let e = dict_set(d, key, x);
    lemma_key_from(d, bytes_of(key), 0);
    lemma_key_from(d, k, 0);
    lemma_key_from(e, k, 0);
    if let Some(i) = key_from(d, bytes_of(key), 0) {
        assert(e[i].0 == bytes_of(key));
        if let Some(n) = key_from(d, k, 0) {
            assert(e[n].0 == k);
            if let Some(m) = key_from(e, k, 0) {
                assert(d[m].0 == k);
            }
        } else if let Some(m) = key_from(e, k, 0) {
            if m != i {
                assert(d[m].0 == k);
            }
        }
    } else {
        assert(e[d.len() as int].0 == bytes_of(key));
        if let Some(n) = key_from(d, k, 0) {
            assert(e[n] == d[n]);
            if let Some(m) = key_from(e, k, 0) {
                if m < d.len() {
                    assert(d[m].0 == k);
                }
            }
        } else if let Some(m) = key_from(e, k, 0) {
            if m < d.len() {
                assert(d[m].0 == k);
            }
        }
    }
}

/// The state that a widget names.
pub open spec fn as_name(p: PdfView, id: ObjId) -> Seq<u8> {
    match as_dict(object_at(p, id)) {
        Some(d) => match dict_get(d, "AS"@) {
            Some(Val::Name(s)) => s,
            _ => seq![],
        },
        None => seq![],
    }
}

/// Whether the state of a widget is settled once it is resolved: what it is
/// drawn as is not again a choice with that state.
pub open spec fn settles(p: PdfView, id: ObjId) -> bool {
    match state_at(p, id) {
        Some(Val::Ref(t)) => !is_drawn(entry_at(as_dict(object_at(p, t)), as_name(p, id))),
        _ => true,
    }
}

/// Whether the state of a widget is resolved, or cannot be for want of numbers.
pub open spec fn is_resolved(p: PdfView, id: ObjId) -> bool {
    is_drawn(state_at(p, id)) ==> state_at(p, id) is Some && state_at(p, id)->0 is Stream
        && p.max_id == u32::MAX
}

/// Whether normalizing leaves a widget as it is.
pub open spec fn is_quiet(p: PdfView, id: ObjId, fits: Seq<FitView>) -> bool {
    &&& is_resolved(p, id)
    &&& unseen_text(p, id) is None || fit_from(fits, id, 0) is None || p.max_id > u32::MAX - 2
}

proof fn lemma_quiet(w: Work, id: ObjId, fits: Seq<FitView>)
    requires
        is_quiet(w.pdf, id, fits),
    ensures
        with_text(with_state(w, id), id, fits) == w,
{
}

proof fn lemma_keys()
    ensures
        bytes_of("AP"@) != bytes_of("AS"@),
        bytes_of("AP"@) != bytes_of("N"@),
        bytes_of("AP"@) != bytes_of("V"@),
        bytes_of("AP"@) != bytes_of("FT"@),
        bytes_of("AP"@) != bytes_of("Parent"@),
        bytes_of("AP"@) != bytes_of("Subtype"@),
{
    reveal_strlit("AP");
    reveal_strlit("AS");
    reveal_strlit("N");
    reveal_strlit("V");
    reveal_strlit("FT");
    reveal_strlit("Parent");
    reveal_strlit("Subtype");
    lemma_ascii_differ("AP"@, "N"@);
    lemma_ascii_differ("AP"@, "V"@);
    lemma_ascii_differ("AP"@, "Parent"@);
    lemma_ascii_differ("AP"@, "Subtype"@);
    crate::field_laws::lemma_two_letters("AP"@, "AS"@);
    crate::field_laws::lemma_two_letters("AP"@, "FT"@);
}

// --- Giving a widget another appearance ---

/// What a value leads to after an appearance was set: the same dictionary, or
/// the same with that appearance.
proof fn lemma_near(p: PdfView, j: ObjId, x: Val, v: Val)
    requires
        as_dict(object_at(p, j)) is Some,
    ensures
        ({
            let q = entry_set(p, j, "AP"@, x).0;
            match as_dict(resolved(p, v)) {
                Some(d) => as_dict(resolved(q, v)) == Some(d) || as_dict(resolved(q, v)) == Some(
                    dict_set(d, "AP"@, x),
                ),
                None => as_dict(resolved(q, v)) is None,
            }
        }),
{
    if let Val::Ref(r) = v {
        lemma_set_object(p, j, "AP"@, x, r);
    }
}

/// The state of another widget after an appearance was set: as before, or one
/// that is not drawn.
proof fn lemma_state_set(p: PdfView, j: ObjId, x: Val, id: ObjId)
    requires
        as_dict(object_at(p, j)) is Some,
        x is Dict,
        end_from(p.objects, id, DEREF_LIMIT as nat) != end_from(
            p.objects,
            j,
            DEREF_LIMIT as nat,
        ),
    ensures
        ({
            let q = entry_set(p, j, "AP"@, x).0;
            &&& state_at(q, id) == state_at(p, id) || !is_drawn(state_at(q, id))
            &&& as_name(q, id) == as_name(p, id)
        }),
{
    let q = entry_set(p, j, "AP"@, x).0;
    lemma_keys();
    lemma_set_object(p, j, "AP"@, x, id);
    assert(object_at(q, id) == object_at(p, id));
    if let Some(d) = as_dict(object_at(p, id)) {
        if let Some(v) = dict_get(d, "AP"@) {
            lemma_near(p, j, x, v);
            if let Some(a) = as_dict(resolved(p, v)) {
                law_set_then_get(a, "AP"@, x, "N"@);
                if let Some(n) = dict_get(a, "N"@) {
                    lemma_near(p, j, x, n);
                    if let Some(states) = as_dict(resolved(p, n)) {
                        lemma_entry_set(states, "AP"@, x, as_name(p, id));
                    }
                }
            }
        }
    }
}

/// The text of a widget stays shown, and one that has no text to show stays so,
/// when an appearance is set.
proof fn lemma_unseen_set(p: PdfView, j: ObjId, x: Val, id: ObjId)
    requires
        as_dict(object_at(p, j)) is Some,
    ensures
        ({
            let q = entry_set(p, j, "AP"@, x).0;
            &&& unseen_text(p, id) is None ==> unseen_text(q, id) is None
            &&& end_from(p.objects, id, DEREF_LIMIT as nat) == end_from(
                p.objects,
                j,
                DEREF_LIMIT as nat,
            ) ==> unseen_text(q, id) is None
        }),
{
    let q = entry_set(p, j, "AP"@, x).0;
    lemma_keys();
    lemma_set_object(p, j, "AP"@, x, id);
    if let Some(d) = as_dict(object_at(p, id)) {
        let e = as_dict(object_at(q, id))->0;
        law_set_then_get(d, "AP"@, x, "AP"@);
        crate::field_laws::lemma_attr_alike(p, j, "AP"@, x, d, e, "FT"@, PARENT_LIMIT as nat);
        crate::field_laws::lemma_attr_alike(p, j, "AP"@, x, d, e, "V"@, PARENT_LIMIT as nat);
    }
}

/// A widget is given the appearance `t`: every widget that settles still does,
/// every quiet one stays quiet, and this one has nothing left to resolve.
proof fn lemma_ap_step(p: PdfView, j: ObjId, t: ObjId, fits: Seq<FitView>, id: ObjId)
    requires
        as_dict(object_at(p, j)) is Some,
        !is_drawn(entry_at(as_dict(object_at(p, t)), as_name(p, j))),
    ensures
        ({
            let q = entry_set(p, j, "AP"@, drawn_as(t)).0;
            &&& q.max_id == p.max_id
            &&& settles(p, id) ==> settles(q, id)
            &&& is_quiet(p, id, fits) ==> is_quiet(q, id, fits)
            &&& id == j ==> !is_drawn(state_at(q, id)) && unseen_text(q, id) is None
        }),
{
    let x = drawn_as(t);
    let q = entry_set(p, j, "AP"@, x).0;
    lemma_keys();
    lemma_unseen_set(p, j, x, id);
    lemma_set_object(p, j, "AP"@, x, id);
    lemma_set_object(p, j, "AP"@, x, j);
    let own = end_from(p.objects, id, DEREF_LIMIT as nat) == end_from(
        p.objects,
        j,
        DEREF_LIMIT as nat,
    );
    if own {
        let d = as_dict(object_at(p, j))->0;
        law_set_then_get(d, "AP"@, x, "AS"@);
        let a = dict_set(seq![], "N"@, Val::Ref(t));
        law_set_then_get(seq![], "N"@, Val::Ref(t), "N"@);
        assert(dict_in(q, dict_set(d, "AP"@, x), "AP"@) == Some(a));
        lemma_near(p, j, x, Val::Ref(t));
        if let Some(s) = as_dict(object_at(p, t)) {
            lemma_entry_set(s, "AP"@, x, as_name(p, j));
        }
        assert(!is_drawn(state_at(q, id)));
    } else {
        lemma_state_set(p, j, x, id);
        if let Some(Val::Ref(u)) = state_at(q, id) {
            lemma_near(p, j, x, Val::Ref(u));
            if let Some(s) = as_dict(object_at(p, u)) {
                lemma_entry_set(s, "AP"@, x, as_name(p, id));
            }
        }
    }
}

// --- Adding objects ---

/// Whether an object changes nothing for a widget that comes to refer to it: a
/// stream, or a dictionary that has nothing of a widget or a field.
pub open spec fn is_dull(x: Val) -> bool {
    match x {
        Val::Stream(_, _) => true,
        Val::Dict(d) => {
            &&& dict_get(d, "N"@) is None
            &&& dict_get(d, "AS"@) is None
            &&& dict_get(d, "FT"@) is None
            &&& dict_get(d, "V"@) is None
            &&& dict_get(d, "Parent"@) is None
            &&& !is_widget(d)
            &&& forall|k: Seq<u8>| !is_drawn(#[trigger] entry_at(Some(d), k))
        },
        _ => false,
    }
}

proof fn lemma_attr_new(
    p: PdfView,
    x: Val,
    d: Seq<(Seq<u8>, Val)>,
    key: Seq<char>,
    left: nat,
)
    requires
        is_numbered(p),
        p.max_id < u32::MAX,
        is_dull(x),
        key == "FT"@ || key == "V"@,
    ensures
        ({
            let q = added(p, x).0;
            if attr(p, d, key, left) is Some {
                attr(q, d, key, left) == attr(p, d, key, left)
            } else {
                attr(q, d, key, left) is None || attr(q, d, key, left) == Some(x)
            }
        }),
    decreases left,
{
    let q = added(p, x).0;
    if left > 0 {
        match dict_get(d, key) {
            Some(v) => {
                crate::field_laws::lemma_resolved_added(p, x, v);
            },
            None => {
                if let Some(v) = dict_get(d, "Parent"@) {
                    crate::field_laws::lemma_resolved_added(p, x, v);
                    match as_dict(resolved(p, v)) {
                        Some(up) => {
                            lemma_attr_new(p, x, up, key, (left - 1) as nat);
                        },
                        None => {
                            if let Some(up) = as_dict(resolved(q, v)) {
                                assert(x == Val::Dict(up));
                                assert(dict_in(q, up, "Parent"@) is None);
                                assert(attr(q, up, key, (left - 1) as nat) is None);
                            }
                        },
                    }
                }
            },
        }
    }
}

proof fn lemma_state_added(p: PdfView, x: Val, id: ObjId)
    requires
        is_numbered(p),
        p.max_id < u32::MAX,
        is_dull(x),
    ensures
        ({
            let q = added(p, x).0;
            &&& state_at(q, id) == state_at(p, id) || !is_drawn(state_at(q, id))
            &&& is_drawn(state_at(q, id)) ==> as_name(q, id) == as_name(p, id)
            &&& as_dict(object_at(p, id)) is Some ==> as_name(q, id) == as_name(p, id)
        }),
{
    let q = added(p, x).0;
    crate::field_laws::lemma_resolved_added(p, x, Val::Ref(id));
    if let Some(d) = as_dict(object_at(p, id)) {
        if let Some(v) = dict_get(d, "AP"@) {
            crate::field_laws::lemma_resolved_added(p, x, v);
            if let Some(a) = as_dict(resolved(p, v)) {
                if let Some(n) = dict_get(a, "N"@) {
                    crate::field_laws::lemma_resolved_added(p, x, n);
                    if let Val::Dict(f) = x {
                        assert(!is_drawn(entry_at(Some(f), as_name(p, id))));
                    }
                }
            }
        }
    }
}

/// An object is added: every widget that settles still does, and every quiet one
/// stays quiet.
proof fn lemma_new_step(p: PdfView, x: Val, fits: Seq<FitView>, id: ObjId)
    requires
        is_numbered(p),
        p.max_id < u32::MAX,
        is_dull(x),
    ensures
        ({
            let q = added(p, x).0;
            &&& is_numbered(q)
            &&& q.max_id == p.max_id + 1
            &&& settles(p, id) ==> settles(q, id)
            &&& is_quiet(p, id, fits) ==> is_quiet(q, id, fits)
        }),
{
    let q = added(p, x).0;
    lemma_added(p, x, id);
    lemma_state_added(p, x, id);
    crate::field_laws::lemma_resolved_added(p, x, Val::Ref(id));
    if let Some(Val::Ref(t)) = state_at(q, id) {
        crate::field_laws::lemma_resolved_added(p, x, Val::Ref(t));
        if let Val::Dict(f) = x {
            assert(!is_drawn(entry_at(Some(f), as_name(q, id))));
        }
    }
    match as_dict(object_at(p, id)) {
        Some(d) => {
            lemma_attr_new(p, x, d, "FT"@, PARENT_LIMIT as nat);
            lemma_attr_new(p, x, d, "V"@, PARENT_LIMIT as nat);
        },
        None => {
            if let Some(f) = as_dict(object_at(q, id)) {
                assert(x == Val::Dict(f));
                assert(dict_in(q, f, "Parent"@) is None);
                assert(field_value(q, f, "FT"@) is None);
            }
        },
    }
}

proof fn lemma_font_dull()
    ensures
        is_dull(font_dict()),
{
    reveal_strlit("N");
    reveal_strlit("V");
    reveal_strlit("AS");
    reveal_strlit("FT");
    reveal_strlit("Parent");
    reveal_strlit("Type");
    reveal_strlit("Subtype");
    reveal_strlit("BaseFont");
    reveal_strlit("Encoding");
    reveal_strlit("Type1");
    reveal_strlit("Widget");
    let none = Seq::<(Seq<u8>, Val)>::empty();
    let a = dict_set(none, "Type"@, name("Font"@));
    let b = dict_set(a, "Subtype"@, name("Type1"@));
    let c = dict_set(b, "BaseFont"@, name("Helvetica"@));
    let d = dict_set(c, "Encoding"@, name("WinAnsiEncoding"@));
    assert forall|k: Seq<u8>| true implies match #[trigger] entry_at(Some(d), k) {
        Some(v) => v is Name && (k == bytes_of("Type"@) || k == bytes_of("Subtype"@) || k
            == bytes_of("BaseFont"@) || k == bytes_of("Encoding"@)),
        None => true,
    } by {
        lemma_entry_set(none, "Type"@, name("Font"@), k);
        lemma_entry_set(a, "Subtype"@, name("Type1"@), k);
        lemma_entry_set(b, "BaseFont"@, name("Helvetica"@), k);
        lemma_entry_set(c, "Encoding"@, name("WinAnsiEncoding"@), k);
    }
    assert(dict_get(d, "N"@) == entry_at(Some(d), bytes_of("N"@)));
    assert(dict_get(d, "V"@) == entry_at(Some(d), bytes_of("V"@)));
    assert(dict_get(d, "AS"@) == entry_at(Some(d), bytes_of("AS"@)));
    assert(dict_get(d, "FT"@) == entry_at(Some(d), bytes_of("FT"@)));
    assert(dict_get(d, "Parent"@) == entry_at(Some(d), bytes_of("Parent"@)));
    lemma_not_font("N"@);
    lemma_not_font("V"@);
    lemma_not_font("AS"@);
    lemma_not_font("FT"@);
    lemma_not_font("Parent"@);
    lemma_ascii_differ("Subtype"@, "BaseFont"@);
    lemma_ascii_differ("Subtype"@, "Encoding"@);
    law_set_then_get(a, "Subtype"@, name("Type1"@), "Subtype"@);
    law_set_then_get(b, "BaseFont"@, name("Helvetica"@), "Subtype"@);
    law_set_then_get(c, "Encoding"@, name("WinAnsiEncoding"@), "Subtype"@);
    lemma_ascii_differ("Type1"@, "Widget"@);
}

proof fn lemma_not_font(key: Seq<char>)
    requires
        is_ascii_chars(key),
        key.len() == 1 || key.len() == 2 || key.len() == 6,
    ensures
        bytes_of(key) != bytes_of("Type"@),
        bytes_of(key) != bytes_of("Subtype"@),
        bytes_of(key) != bytes_of("BaseFont"@),
        bytes_of(key) != bytes_of("Encoding"@),
{
    reveal_strlit("Type");
    reveal_strlit("Subtype");
    reveal_strlit("BaseFont");
    reveal_strlit("Encoding");
    lemma_ascii_differ(key, "Type"@);
    lemma_ascii_differ(key, "Subtype"@);
    lemma_ascii_differ(key, "BaseFont"@);
    lemma_ascii_differ(key, "Encoding"@);
}

/// The object that was added is found under its number.
proof fn lemma_new_object(p: PdfView, x: Val)
    requires
        is_numbered(p),
        p.max_id < u32::MAX,
        !(x is Ref),
    ensures
        added(p, x).1 is Some,
        added(p, x).0.objects == p.objects.push((added(p, x).1->0, x)),
        object_at(added(p, x).0, added(p, x).1->0) == Some(x),
{
    let fresh = ObjId { num: (p.max_id + 1) as u32, gen: 0 };
    lemma_object_from(p.objects, fresh, 0);
    if let Some(k) = object_from(p.objects, fresh, 0) {
        assert(p.objects[k].0.num <= p.max_id);
    }
    let more = p.objects.push((fresh, x));
    lemma_object_from(more, fresh, 0);
    let last = p.objects.len() as int;
    assert(more[last].0 == fresh);
    let k = object_from(more, fresh, 0)->0;
    if k < last {
        assert(more[k] == p.objects[k]);
    }
}

// --- Widgets ---

/// Whether an object is a widget.
pub open spec fn is_widget_object(v: Val) -> bool {
    match v {
        Val::Dict(d) => is_widget(d),
        _ => false,
    }
}

/// Whether `more` has the objects of `all` in their places, and no widget that
/// `all` has not.
pub open spec fn no_new_widgets(all: Seq<(ObjId, Val)>, more: Seq<(ObjId, Val)>) -> bool {
    &&& all.len() <= more.len()
    &&& forall|n: int|
        0 <= n < all.len() ==> (#[trigger] more[n]).0 == all[n].0 && (is_widget_object(more[n].1)
            ==> is_widget_object(all[n].1))
    &&& forall|n: int| all.len() <= n < more.len() ==> !is_widget_object((#[trigger] more[n]).1)
}

proof fn lemma_widgets_set(all: Seq<(ObjId, Val)>, p: PdfView, j: ObjId, x: Val)
    requires
        no_new_widgets(all, p.objects),
    ensures
        no_new_widgets(all, entry_set(p, j, "AP"@, x).0.objects),
{
    let q = entry_set(p, j, "AP"@, x).0;
    lemma_keys();
    lemma_end_from(p.objects, j, DEREF_LIMIT as nat);
    if let Some(k) = end_from(p.objects, j, DEREF_LIMIT as nat) {
        if let Val::Dict(d) = p.objects[k].1 {
            law_set_then_get(d, "AP"@, x, "Subtype"@);
            assert forall|n: int| 0 <= n < p.objects.len() implies (#[trigger] q.objects[n]).0
                == p.objects[n].0 && is_widget_object(q.objects[n].1) == is_widget_object(
                p.objects[n].1,
            ) by {}
        }
    }
}

proof fn lemma_widgets_added(all: Seq<(ObjId, Val)>, p: PdfView, x: Val)
    requires
        no_new_widgets(all, p.objects),
        is_numbered(p),
        p.max_id < u32::MAX,
        is_dull(x),
    ensures
        no_new_widgets(all, added(p, x).0.objects),
{
    lemma_new_object(p, x);
    let more = added(p, x).0.objects;
    assert forall|n: int| 0 <= n < p.objects.len() implies #[trigger] more[n] == p.objects[n] by {}
}

proof fn lemma_widgets_known(all: Seq<(ObjId, Val)>, more: Seq<(ObjId, Val)>, n: int, id: ObjId)
    requires
        no_new_widgets(all, more),
        0 <= n <= more.len(),
        widgets_upto(more, n).contains(id),
    ensures
        widgets_upto(all, all.len() as int).contains(id),
    decreases n,
{
    let before = widgets_upto(more, n - 1);
    if is_widget_object(more[n - 1].1) {
        let k = choose|k: int| 0 <= k < widgets_upto(more, n).len() && widgets_upto(more, n)[k] == id;
        if k < before.len() {
            assert(before[k] == id);
            lemma_widgets_known(all, more, n - 1, id);
        } else {
            assert(more[n - 1].0 == id);
            assert(more[n - 1].0 == all[n - 1].0);
            lemma_widget_listed(all, n - 1, all.len() as int);
        }
    } else {
        lemma_widgets_known(all, more, n - 1, id);
    }
}

proof fn lemma_widget_listed(all: Seq<(ObjId, Val)>, k: int, n: int)
    requires
        0 <= k < n <= all.len(),
        is_widget_object(all[k].1),
    ensures
        widgets_upto(all, n).contains(all[k].0),
    decreases n,
{
    let before = widgets_upto(all, n - 1);
    let now = widgets_upto(all, n);
    if k == n - 1 {
        assert(now.last() == all[k].0);
    } else {
        lemma_widget_listed(all, k, n - 1);
        let i = choose|i: int| 0 <= i < before.len() && before[i] == all[k].0;
        assert(now[i] == all[k].0);
    }
}

// --- Normalizing ---

/// The state of one widget is resolved: what holds of `id` still does.
proof fn lemma_state_step(
    all: Seq<(ObjId, Val)>,
    w: Work,
    i: ObjId,
    fits: Seq<FitView>,
    id: ObjId,
)
    requires
        is_numbered(w.pdf),
        settles(w.pdf, i),
        no_new_widgets(all, w.pdf.objects),
    ensures
        ({
            let r = with_state(w, i);
            &&& is_numbered(r.pdf)
            &&& no_new_widgets(all, r.pdf.objects)
            &&& settles(w.pdf, id) ==> settles(r.pdf, id)
            &&& is_quiet(w.pdf, id, fits) ==> is_quiet(r.pdf, id, fits)
            &&& is_resolved(r.pdf, i)
        }),
{
    let p = w.pdf;
    match state_at(p, i) {
        Some(Val::Ref(t)) => {
            lemma_ap_step(p, i, t, fits, id);
            lemma_ap_step(p, i, t, fits, i);
            crate::field_laws::lemma_numbered_set(p, i, "AP"@, drawn_as(t));
            lemma_widgets_set(all, p, i, drawn_as(t));
        },
        Some(Val::Stream(d, c)) => {
            let x = Val::Stream(d, c);
            if p.max_id < u32::MAX {
                lemma_new_object(p, x);
                lemma_new_step(p, x, fits, id);
                lemma_widgets_added(all, p, x);
                let (q, t) = added(p, x);
                lemma_added(p, x, i);
                lemma_ap_step(q, i, t->0, fits, id);
                lemma_ap_step(q, i, t->0, fits, i);
                crate::field_laws::lemma_numbered_set(q, i, "AP"@, drawn_as(t->0));
                lemma_widgets_set(all, q, i, drawn_as(t->0));
            }
        },
        _ => {},
    }
}

/// One widget is given a line of text where it shows none: what holds of `id`
/// still does, and nothing is left to do for the widget.
proof fn lemma_text_step(
    all: Seq<(ObjId, Val)>,
    w: Work,
    i: ObjId,
    fits: Seq<FitView>,
    id: ObjId,
)
    requires
        is_numbered(w.pdf),
        is_resolved(w.pdf, i),
        no_new_widgets(all, w.pdf.objects),
    ensures
        ({
            let r = with_text(w, i, fits);
            &&& is_numbered(r.pdf)
            &&& no_new_widgets(all, r.pdf.objects)
            &&& settles(w.pdf, id) ==> settles(r.pdf, id)
            &&& is_quiet(w.pdf, id, fits) ==> is_quiet(r.pdf, id, fits)
            &&& is_quiet(r.pdf, i, fits)
        }),
{
    if unseen_text(w.pdf, i) is Some && fit_from(fits, i, 0) is Some && w.pdf.max_id <= u32::MAX
        - 2 {
        let text = unseen_text(w.pdf, i)->0;
        let fit = fits[fit_from(fits, i, 0)->0];
        let f = with_font(w);
        if w.font is None {
            lemma_font_dull();
            lemma_new_object(w.pdf, font_dict());
            lemma_new_step(w.pdf, font_dict(), fits, id);
            lemma_added(w.pdf, font_dict(), i);
            lemma_widgets_added(all, w.pdf, font_dict());
        }
        let line = line_object(fit, text, f.font->0);
        lemma_new_object(f.pdf, line);
        lemma_new_step(f.pdf, line, fits, id);
        lemma_added(f.pdf, line, i);
        lemma_widgets_added(all, f.pdf, line);
        let (q, t) = added(f.pdf, line);
        lemma_ap_step(q, i, t->0, fits, id);
        lemma_ap_step(q, i, t->0, fits, i);
        crate::field_laws::lemma_numbered_set(q, i, "AP"@, drawn_as(t->0));
        lemma_widgets_set(all, q, i, drawn_as(t->0));
    }
}

proof fn lemma_normal_steps(
    all: Seq<(ObjId, Val)>,
    w: Work,
    ids: Seq<ObjId>,
    i: int,
    fits: Seq<FitView>,
)
    requires
        is_numbered(w.pdf),
        0 <= i <= ids.len(),
        no_new_widgets(all, w.pdf.objects),
        forall|k: int| i <= k < ids.len() ==> settles(w.pdf, #[trigger] ids[k]),
        forall|k: int| 0 <= k < i ==> is_quiet(w.pdf, #[trigger] ids[k], fits),
    ensures
        ({
            let r = normal_from(w, ids, i, fits);
            &&& no_new_widgets(all, r.pdf.objects)
            &&& forall|k: int| 0 <= k < ids.len() ==> is_quiet(r.pdf, #[trigger] ids[k], fits)
        }),
    decreases ids.len() - i,
{
    if i < ids.len() {
        let s = with_state(w, ids[i]);
        let r = with_text(s, ids[i], fits);
        lemma_state_step(all, w, ids[i], fits, ids[i]);
        lemma_text_step(all, s, ids[i], fits, ids[i]);
        assert forall|k: int| i < k < ids.len() implies settles(r.pdf, #[trigger] ids[k]) by {
            lemma_state_step(all, w, ids[i], fits, ids[k]);
            lemma_text_step(all, s, ids[i], fits, ids[k]);
        }
        assert forall|k: int| 0 <= k <= i implies is_quiet(r.pdf, #[trigger] ids[k], fits) by {
            if k < i {
                lemma_state_step(all, w, ids[i], fits, ids[k]);
                lemma_text_step(all, s, ids[i], fits, ids[k]);
            }
        }
        lemma_normal_steps(all, r, ids, i + 1, fits);
    }
}

pub(crate) proof fn lemma_all_quiet(w: Work, ids: Seq<ObjId>, i: int, fits: Seq<FitView>)
    requires
        0 <= i <= ids.len(),
        forall|k: int| 0 <= k < ids.len() ==> is_quiet(w.pdf, #[trigger] ids[k], fits),
    ensures
        normal_from(w, ids, i, fits) == w,
    decreases ids.len() - i,
{
    if i < ids.len() {
        lemma_quiet(w, ids[i], fits);
        lemma_all_quiet(w, ids, i + 1, fits);
    }
}

/// Every widget of a normalized document is one that normalizing leaves alone.
pub(crate) proof fn lemma_normal_quiet(p: PdfView, fits: Seq<FitView>)
    requires
        is_numbered(p),
        forall|k: int|
            0 <= k < widgets_upto(p.objects, p.objects.len() as int).len() ==> settles(
                p,
                #[trigger] widgets_upto(p.objects, p.objects.len() as int)[k],
            ),
    ensures
        ({
            let q = normal_pdf(p, fits).pdf;
            let now = widgets_upto(q.objects, q.objects.len() as int);
            forall|k: int| 0 <= k < now.len() ==> is_quiet(q, #[trigger] now[k], fits)
        }),
{
    let ids = widgets_upto(p.objects, p.objects.len() as int);
    lemma_normal_steps(p.objects, untouched(p), ids, 0, fits);
    let q = normal_pdf(p, fits).pdf;
    let now = widgets_upto(q.objects, q.objects.len() as int);
    assert forall|k: int| 0 <= k < now.len() implies is_quiet(q, #[trigger] now[k], fits) by {
        assert(now.contains(now[k]));
        lemma_widgets_known(p.objects, q.objects, q.objects.len() as int, now[k]);
        let i = choose|i: int| 0 <= i < ids.len() && ids[i] == now[k];
        assert(ids[i] == now[k]);
    }
}

/// A normalized document has nothing left to normalize. This leaves out widgets
/// whose state is drawn as a choice that again has that state: each pass
/// resolves one such step.
pub proof fn law_normalizing_twice(p: PdfView, fits: Seq<FitView>)
    requires
        is_numbered(p),
        forall|k: int|
            0 <= k < widgets_upto(p.objects, p.objects.len() as int).len() ==> settles(
                p,
                #[trigger] widgets_upto(p.objects, p.objects.len() as int)[k],
            ),
    ensures
        ({
            let q = normal_pdf(p, fits).pdf;
            &&& normal_pdf(q, fits).pdf == q
            &&& !normal_pdf(q, fits).changed
        }),
{
    let q = normal_pdf(p, fits).pdf;
    lemma_normal_quiet(p, fits);
    lemma_all_quiet(untouched(q), widgets_upto(q.objects, q.objects.len() as int), 0, fits);
}

} // verus!
