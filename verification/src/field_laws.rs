//! What holds of a field with all its widgets: every one of them reads as the
//! field was set.
use crate::form_edits::{
    drawn_as, fit_from, font_dict, line_object, name, named_upto, owner_of, set_from, set_pdf,
    switch_state, untouched, with_font, with_line, with_set, with_value, FitView, Work,
};
use crate::form_laws::{
    is_numbered, lemma_added, lemma_ascii_differ, lemma_attr_added, lemma_keys_differ,
    lemma_owner_dict, lemma_set_object, reaches_owner,
};
use crate::forms::{
    attr, flags_of, is_read_only, is_switch, kind_at, value_at, FieldKind, PARENT_LIMIT,
};
use crate::pdf::{
    added, as_dict, bytes_of, dict_get, dict_in, dict_set, end_from, entry_set, law_set_then_get,
    lemma_end_from, lemma_object_from, object_at, object_from, resolved, ObjId, PdfView, Val,
    DEREF_LIMIT,
};
use crate::pdf_text::{law_text_string_reads_back, text_string};
use vstd::prelude::*;
use vstd::utf8::{encode_utf8_decode_utf8, encode_utf8_valid_utf8, is_ascii_chars};
use vstd::utf8::is_ascii_chars_encode_utf8;

verus! {

/// The keys that setting a field may write, none of which decides where a field
/// is found.
pub open spec fn is_outer(key: Seq<char>) -> bool {
    bytes_of(key) != bytes_of("FT"@) && bytes_of(key) != bytes_of("Ff"@) && bytes_of(key)
        != bytes_of("Parent"@)
}

pub(crate) proof fn lemma_two_letters(a: Seq<char>, b: Seq<char>)
    requires
        is_ascii_chars(a),
        is_ascii_chars(b),
        a.len() == 2,
        b.len() == 2,
        a[0] as u8 != b[0] as u8 || a[1] as u8 != b[1] as u8,
    ensures
        bytes_of(a) != bytes_of(b),
{
    is_ascii_chars_encode_utf8(a);
    is_ascii_chars_encode_utf8(b);
}

pub(crate) proof fn lemma_outer()
    ensures
        is_outer("V"@),
        is_outer("AP"@),
        is_outer("AS"@),
        bytes_of("AP"@) != bytes_of("V"@),
        bytes_of("AS"@) != bytes_of("V"@),
        bytes_of("FT"@) != bytes_of("V"@),
        bytes_of("Parent"@) != bytes_of("V"@),
{
    lemma_keys_differ();
    reveal_strlit("AP");
    reveal_strlit("AS");
    reveal_strlit("V");
    reveal_strlit("FT");
    reveal_strlit("Ff");
    reveal_strlit("Parent");
    lemma_ascii_differ("V"@, "FT"@);
    lemma_ascii_differ("V"@, "Ff"@);
    lemma_ascii_differ("V"@, "Parent"@);
    lemma_two_letters("AP"@, "FT"@);
    lemma_two_letters("AP"@, "Ff"@);
    lemma_two_letters("AS"@, "FT"@);
    lemma_two_letters("AS"@, "Ff"@);
}

// --- Attributes ---

/// Whether two attributes are the same, or both dictionaries.
pub open spec fn is_alike(a: Option<Val>, b: Option<Val>) -> bool {
    a == b || (as_dict(a) is Some && as_dict(b) is Some)
}

/// An attribute is as before when another entry is set, for a dictionary as it
/// was and as it is then.
pub(crate) proof fn lemma_attr_alike(
    p: PdfView,
    id: ObjId,
    key: Seq<char>,
    x: Val,
    d: Seq<(Seq<u8>, Val)>,
    e: Seq<(Seq<u8>, Val)>,
    wanted: Seq<char>,
    left: nat,
)
    requires
        as_dict(object_at(p, id)) is Some,
        bytes_of(key) != bytes_of(wanted),
        bytes_of(key) != bytes_of("Parent"@),
        e == d || e == dict_set(d, key, x),
    ensures
        is_alike(attr(entry_set(p, id, key, x).0, e, wanted, left), attr(p, d, wanted, left)),
    decreases left,
{
    let q = entry_set(p, id, key, x).0;
    if left > 0 {
        law_set_then_get(d, key, x, wanted);
        law_set_then_get(d, key, x, "Parent"@);
        match dict_get(d, wanted) {
            Some(v) => {
                if let Val::Ref(r) = v {
                    lemma_set_object(p, id, key, x, r);
                    lemma_end_from(p.objects, r, DEREF_LIMIT as nat);
                }
            },
            None => {
                match dict_get(d, "Parent"@) {
                    Some(Val::Ref(r)) => {
                        lemma_set_object(p, id, key, x, r);
                        match as_dict(object_at(p, r)) {
                            Some(up) => {
                                let above = as_dict(object_at(q, r))->0;
                                lemma_attr_alike(
                                    p,
                                    id,
                                    key,
                                    x,
                                    up,
                                    above,
                                    wanted,
                                    (left - 1) as nat,
                                );
                            },
                            None => {},
                        }
                    },
                    Some(Val::Dict(up)) => {
                        lemma_attr_alike(p, id, key, x, up, up, wanted, (left - 1) as nat);
                    },
                    _ => {},
                }
            },
        }
    }
}

/// The kind and the flags of every widget stay when an entry is set that has
/// nothing to do with them.
proof fn lemma_kind_set(p: PdfView, o: ObjId, key: Seq<char>, x: Val, id: ObjId)
    requires
        as_dict(object_at(p, o)) is Some,
        is_outer(key),
        as_dict(object_at(p, id)) is Some,
    ensures
        ({
            let q = entry_set(p, o, key, x).0;
            let d = as_dict(object_at(p, id))->0;
            let e = as_dict(object_at(q, id))->0;
            &&& as_dict(object_at(q, id)) is Some
            &&& kind_at(q, e) == kind_at(p, d)
            &&& flags_of(q, e) == flags_of(p, d)
        }),
{
    let q = entry_set(p, o, key, x).0;
    let d = as_dict(object_at(p, id))->0;
    lemma_set_object(p, o, key, x, id);
    let e = as_dict(object_at(q, id))->0;
    lemma_attr_alike(p, o, key, x, d, e, "FT"@, PARENT_LIMIT as nat);
    lemma_attr_alike(p, o, key, x, d, e, "Ff"@, PARENT_LIMIT as nat);
}

/// An object that was not there leads nowhere after another was added, or to
/// the added one.
proof fn lemma_end_grows(all: Seq<(ObjId, Val)>, e: (ObjId, Val), id: ObjId, left: nat)
    requires
        end_from(all, id, left) is None,
        !(e.1 is Ref),
    ensures
        match end_from(all.push(e), id, left) {
            Some(k) => k == all.len(),
            None => true,
        },
    decreases left,
{
    let more = all.push(e);
    lemma_object_from(all, id, 0);
    lemma_object_from(more, id, 0);
    match object_from(all, id, 0) {
        Some(k) => {
            lemma_object_same(all, e, id, 0);
            if let Val::Ref(next) = all[k].1 {
                if left > 0 {
                    lemma_end_grows(all, e, next, (left - 1) as nat);
                }
            }
        },
        None => {
            if let Some(k) = object_from(more, id, 0) {
                assert(k == all.len()) by {
                    if k < all.len() {
                        assert(all[k] == more[k]);
                    }
                }
            }
        },
    }
}

proof fn lemma_object_same(all: Seq<(ObjId, Val)>, e: (ObjId, Val), id: ObjId, i: int)
    requires
        0 <= i,
        object_from(all, id, i) is Some,
    ensures
        object_from(all.push(e), id, i) == object_from(all, id, i),
    decreases all.len() - i,
{
    if i < all.len() && all[i].0 != id {
        lemma_object_same(all, e, id, i + 1);
    }
}

/// An attribute as a number.
pub open spec fn as_int(v: Option<Val>) -> Option<i64> {
    match v {
        Some(Val::Int(i)) => Some(i),
        _ => None,
    }
}

/// Whether an object says nothing of flags: neither of its own nor of another's.
pub open spec fn is_flagless(x: Val) -> bool {
    match x {
        Val::Dict(d) => dict_get(d, "Ff"@) is None && dict_get(d, "Parent"@) is None,
        Val::Stream(_, _) => true,
        _ => false,
    }
}

/// What a value resolves to after an object was added: as before, or to that
/// object where it led nowhere.
pub(crate) proof fn lemma_resolved_added(p: PdfView, x: Val, v: Val)
    requires
        is_numbered(p),
        p.max_id < u32::MAX,
        !(x is Ref),
    ensures
        ({
            let q = added(p, x).0;
            if resolved(p, v) is Some {
                resolved(q, v) == resolved(p, v)
            } else {
                resolved(q, v) is None || resolved(q, v) == Some(x)
            }
        }),
{
    if let Val::Ref(r) = v {
        let fresh = ObjId { num: (p.max_id + 1) as u32, gen: 0 };
        lemma_added(p, x, r);
        lemma_object_from(p.objects, fresh, 0);
        if let Some(k) = object_from(p.objects, fresh, 0) {
            assert(p.objects[k].0.num <= p.max_id);
        }
        if object_at(p, r) is None {
            lemma_end_grows(p.objects, (fresh, x), r, DEREF_LIMIT as nat);
        }
    }
}

proof fn lemma_flags_added(p: PdfView, x: Val, d: Seq<(Seq<u8>, Val)>, left: nat)
    requires
        is_numbered(p),
        p.max_id < u32::MAX,
        is_flagless(x),
    ensures
        as_int(attr(added(p, x).0, d, "Ff"@, left)) == as_int(attr(p, d, "Ff"@, left)),
    decreases left,
{
    let q = added(p, x).0;
    if left > 0 {
        match dict_get(d, "Ff"@) {
            Some(v) => {
                lemma_resolved_added(p, x, v);
            },
            None => {
                if let Some(v) = dict_get(d, "Parent"@) {
                    lemma_resolved_added(p, x, v);
                    match as_dict(resolved(p, v)) {
                        Some(up) => {
                            lemma_flags_added(p, x, up, (left - 1) as nat);
                        },
                        None => {
                            if let Some(up) = as_dict(resolved(q, v)) {
                                assert(x == Val::Dict(up));
                                assert(dict_in(q, up, "Parent"@) is None);
                                assert(attr(q, up, "Ff"@, (left - 1) as nat) is None);
                            }
                        },
                    }
                }
            },
        }
    }
}

proof fn lemma_font_flagless()
    ensures
        is_flagless(font_dict()),
{
    reveal_strlit("Ff");
    reveal_strlit("Parent");
    reveal_strlit("Type");
    reveal_strlit("Subtype");
    reveal_strlit("BaseFont");
    reveal_strlit("Encoding");
    let none = Seq::<(Seq<u8>, Val)>::empty();
    let a = dict_set(none, "Type"@, name("Font"@));
    let b = dict_set(a, "Subtype"@, name("Type1"@));
    let c = dict_set(b, "BaseFont"@, name("Helvetica"@));
    let e = name("WinAnsiEncoding"@);
    lemma_ascii_differ("Ff"@, "Type"@);
    lemma_ascii_differ("Ff"@, "Subtype"@);
    lemma_ascii_differ("Ff"@, "BaseFont"@);
    lemma_ascii_differ("Ff"@, "Encoding"@);
    lemma_ascii_differ("Parent"@, "Type"@);
    lemma_ascii_differ("Parent"@, "Subtype"@);
    lemma_ascii_differ("Parent"@, "BaseFont"@);
    lemma_ascii_differ("Parent"@, "Encoding"@);
    law_set_then_get(none, "Type"@, name("Font"@), "Ff"@);
    law_set_then_get(none, "Type"@, name("Font"@), "Parent"@);
    law_set_then_get(a, "Subtype"@, name("Type1"@), "Ff"@);
    law_set_then_get(a, "Subtype"@, name("Type1"@), "Parent"@);
    law_set_then_get(b, "BaseFont"@, name("Helvetica"@), "Ff"@);
    law_set_then_get(b, "BaseFont"@, name("Helvetica"@), "Parent"@);
    law_set_then_get(c, "Encoding"@, e, "Ff"@);
    law_set_then_get(c, "Encoding"@, e, "Parent"@);
}

/// The kind and the flags of a widget stay when an object is added.
proof fn lemma_kind_added(p: PdfView, x: Val, id: ObjId)
    requires
        is_numbered(p),
        p.max_id < u32::MAX,
        is_flagless(x),
        as_dict(object_at(p, id)) is Some,
        kind_at(p, as_dict(object_at(p, id))->0) is Some,
    ensures
        ({
            let q = added(p, x).0;
            let d = as_dict(object_at(p, id))->0;
            &&& object_at(q, id) == object_at(p, id)
            &&& kind_at(q, d) == kind_at(p, d)
            &&& flags_of(q, d) == flags_of(p, d)
        }),
{
    let d = as_dict(object_at(p, id))->0;
    lemma_added(p, x, id);
    lemma_attr_added(p, x, d, "FT"@, PARENT_LIMIT as nat);
    lemma_flags_added(p, x, d, PARENT_LIMIT as nat);
}

// --- Owners ---

/// Whether a dictionary is one that a field is kept in: it has a field type, or
/// nothing above it to look for one.
pub open spec fn is_owner(d: Seq<(Seq<u8>, Val)>) -> bool {
    dict_get(d, "FT"@) is Some || !(dict_get(d, "Parent"@) matches Some(Val::Ref(_)))
}

proof fn lemma_attr_deeper(p: PdfView, d: Seq<(Seq<u8>, Val)>, key: Seq<char>, left: nat)
    requires
        attr(p, d, key, left) is Some,
    ensures
        attr(p, d, key, left + 1) == attr(p, d, key, left),
    decreases left,
{
    if dict_get(d, key) is None {
        lemma_attr_deeper(p, dict_in(p, d, "Parent"@)->0, key, (left - 1) as nat);
    }
}

/// The dictionary that owns a widget's field has the field's type.
proof fn lemma_owner_type(p: PdfView, id: ObjId, left: nat)
    requires
        as_dict(object_at(p, id)) is Some,
        attr(p, as_dict(object_at(p, id))->0, "FT"@, left) is Some,
    ensures
        ({
            let o = as_dict(object_at(p, owner_of(p, id, left)));
            &&& o is Some
            &&& is_owner(o->0)
            &&& attr(p, o->0, "FT"@, left) == attr(
                p,
                as_dict(object_at(p, id))->0,
                "FT"@,
                left,
            )
        }),
    decreases left,
{
    let d = as_dict(object_at(p, id))->0;
    if dict_get(d, "FT"@) is None {
        if let Some(Val::Ref(up)) = dict_get(d, "Parent"@) {
            let less = (left - 1) as nat;
            lemma_owner_type(p, up, less);
            let o = as_dict(object_at(p, owner_of(p, id, left)))->0;
            lemma_attr_deeper(p, o, "FT"@, less);
        }
    }
}

/// Where the object stands that owns a widget's field.
pub open spec fn owner_end(p: PdfView, id: ObjId, left: nat) -> Option<int> {
    end_from(p.objects, owner_of(p, id, left), DEREF_LIMIT as nat)
}

/// Setting an entry of an owner, or one that is no value, moves no owner.
proof fn lemma_owner_set(p: PdfView, o: ObjId, key: Seq<char>, x: Val, id: ObjId, left: nat)
    requires
        as_dict(object_at(p, o)) is Some,
        is_outer(key),
        bytes_of(key) != bytes_of("V"@) || (key == "V"@ && is_owner(as_dict(object_at(p, o))->0)),
        reaches_owner(p, id, left),
    ensures
        ({
            let q = entry_set(p, o, key, x).0;
            &&& reaches_owner(q, id, left)
            &&& owner_of(q, id, left) == owner_of(p, id, left)
            &&& owner_end(q, id, left) == owner_end(p, id, left)
        }),
    decreases left,
{
    let q = entry_set(p, o, key, x).0;
    let d = as_dict(object_at(p, id))->0;
    lemma_set_object(p, o, key, x, id);
    law_set_then_get(d, key, x, "FT"@);
    law_set_then_get(d, key, x, "Parent"@);
    law_set_then_get(d, key, x, "V"@);
    if dict_get(d, "FT"@) is None {
        if let Some(Val::Ref(up)) = dict_get(d, "Parent"@) {
            lemma_owner_set(p, o, key, x, up, (left - 1) as nat);
        }
    }
}

proof fn lemma_owner_added(p: PdfView, x: Val, id: ObjId, left: nat)
    requires
        is_numbered(p),
        p.max_id < u32::MAX,
        reaches_owner(p, id, left),
    ensures
        ({
            let q = added(p, x).0;
            &&& reaches_owner(q, id, left)
            &&& owner_of(q, id, left) == owner_of(p, id, left)
            &&& object_at(q, owner_of(p, id, left)) == object_at(p, owner_of(p, id, left))
        }),
    decreases left,
{
    let d = as_dict(object_at(p, id))->0;
    lemma_added(p, x, id);
    if dict_get(d, "FT"@) is None {
        if let Some(Val::Ref(up)) = dict_get(d, "Parent"@) {
            lemma_owner_added(p, x, up, (left - 1) as nat);
        }
    }
}

/// Whether the field of a widget keeps the value `v`.
pub open spec fn keeps(p: PdfView, id: ObjId, left: nat, v: Val) -> bool {
    reaches_owner(p, id, left) && dict_get(
        as_dict(object_at(p, owner_of(p, id, left)))->0,
        "V"@,
    ) == Some(v)
}

/// A widget reads the value that its field keeps.
proof fn lemma_keeps(p: PdfView, id: ObjId, left: nat, v: Val)
    requires
        keeps(p, id, left, v),
        !(v is Ref),
    ensures
        as_dict(object_at(p, id)) is Some,
        attr(p, as_dict(object_at(p, id))->0, "V"@, left) == Some(v),
    decreases left,
{
    let d = as_dict(object_at(p, id))->0;
    if dict_get(d, "FT"@) is None {
        if let Some(Val::Ref(up)) = dict_get(d, "Parent"@) {
            lemma_keeps(p, up, (left - 1) as nat, v);
        }
    }
}

// --- Steps ---

/// What a field of a kind keeps for a value.
pub open spec fn kept_value(kind: FieldKind, value: Seq<char>) -> Val {
    if is_switch(kind) {
        name(value)
    } else {
        Val::Str(text_string(value), false)
    }
}

/// Whether a widget can be set: its field is found, is of this kind, and is not
/// read-only.
pub open spec fn is_settable(p: PdfView, id: ObjId, kind: FieldKind) -> bool {
    &&& reaches_owner(p, id, PARENT_LIMIT as nat)
    &&& kind_at(p, as_dict(object_at(p, id))->0) == Some(kind)
    &&& kind != FieldKind::Signature
    &&& !is_read_only(flags_of(p, as_dict(object_at(p, id))->0))
}

pub(crate) proof fn lemma_numbered_set(p: PdfView, o: ObjId, key: Seq<char>, x: Val)
    requires
        is_numbered(p),
    ensures
        is_numbered(entry_set(p, o, key, x).0),
        entry_set(p, o, key, x).0.max_id == p.max_id,
{
    let q = entry_set(p, o, key, x).0;
    lemma_end_from(p.objects, o, DEREF_LIMIT as nat);
    assert forall|i: int| 0 <= i < q.objects.len() implies (#[trigger] q.objects[i]).0.num
        <= q.max_id by {
        assert(q.objects[i].0 == p.objects[i].0);
    }
}

/// Setting an entry keeps a widget settable, and the value of its field where
/// the entry is no other value of the same field.
proof fn lemma_set_step(
    p: PdfView,
    o: ObjId,
    key: Seq<char>,
    x: Val,
    id: ObjId,
    kind: FieldKind,
    v: Val,
)
    requires
        is_numbered(p),
        is_settable(p, id, kind),
        as_dict(object_at(p, o)) is Some,
        is_outer(key),
        bytes_of(key) != bytes_of("V"@) || (key == "V"@ && is_owner(as_dict(object_at(p, o))->0)),
    ensures
        ({
            let q = entry_set(p, o, key, x).0;
            let left = PARENT_LIMIT as nat;
            let same = end_from(p.objects, o, DEREF_LIMIT as nat) == owner_end(p, id, left);
            &&& is_numbered(q)
            &&& q.max_id == p.max_id
            &&& is_settable(q, id, kind)
            &&& owner_end(q, id, left) == owner_end(p, id, left)
            &&& key == "V"@ && same ==> keeps(q, id, left, x)
            &&& keeps(p, id, left, v) && (key == "V"@ && same ==> x == v) ==> keeps(q, id, left, v)
        }),
{
    let left = PARENT_LIMIT as nat;
    let own = owner_of(p, id, left);
    lemma_numbered_set(p, o, key, x);
    lemma_kind_set(p, o, key, x, id);
    lemma_owner_set(p, o, key, x, id, left);
    lemma_owner_dict(p, id, left);
    lemma_set_object(p, o, key, x, own);
    let d = as_dict(object_at(p, own))->0;
    law_set_then_get(d, key, x, "V"@);
}

proof fn lemma_added_step(p: PdfView, x: Val, id: ObjId, kind: FieldKind, v: Val)
    requires
        is_numbered(p),
        p.max_id < u32::MAX,
        is_settable(p, id, kind),
        is_flagless(x),
    ensures
        ({
            let q = added(p, x).0;
            &&& is_numbered(q)
            &&& q.max_id == p.max_id + 1
            &&& added(p, x).1 is Some
            &&& is_settable(q, id, kind)
            &&& keeps(p, id, PARENT_LIMIT as nat, v) ==> keeps(q, id, PARENT_LIMIT as nat, v)
        }),
{
    lemma_added(p, x, id);
    lemma_kind_added(p, x, id);
    lemma_owner_added(p, x, id, PARENT_LIMIT as nat);
}

/// Giving a widget a line of text keeps another settable, and its value.
proof fn lemma_line_step(
    w: Work,
    j: ObjId,
    fit: FitView,
    text: Seq<char>,
    id: ObjId,
    kind: FieldKind,
    v: Val,
)
    requires
        is_numbered(w.pdf),
        w.pdf.max_id <= u32::MAX - 2,
        is_settable(w.pdf, id, kind),
    ensures
        ({
            let r = with_line(w, j, fit, text);
            &&& is_numbered(r.pdf)
            &&& r.pdf.max_id <= w.pdf.max_id + 2
            &&& is_settable(r.pdf, id, kind)
            &&& keeps(w.pdf, id, PARENT_LIMIT as nat, v) ==> keeps(
                r.pdf,
                id,
                PARENT_LIMIT as nat,
                v,
            )
            &&& w.changed ==> r.changed
            &&& j == id ==> r.changed
        }),
{
    let f = with_font(w);
    if w.font is None {
        lemma_font_flagless();
        lemma_added_step(w.pdf, font_dict(), id, kind, v);
    }
    let line = line_object(fit, text, f.font->0);
    lemma_added_step(f.pdf, line, id, kind, v);
    let (p, x) = added(f.pdf, line);
    lemma_outer();
    let ap = drawn_as(x->0);
    if as_dict(object_at(p, j)) is Some {
        lemma_set_step(p, j, "AP"@, ap, id, kind, v);
    }
}

/// One widget is set: another stays settable, and its field keeps its value
/// where that is what the field is set to.
proof fn lemma_widget_step(
    w: Work,
    j: ObjId,
    value: Seq<char>,
    fits: Seq<FitView>,
    id: ObjId,
    kind: FieldKind,
)
    requires
        is_numbered(w.pdf),
        w.pdf.max_id <= u32::MAX - 2,
        is_settable(w.pdf, id, kind),
    ensures
        ({
            let r = with_set(w, j, value, fits);
            let v = kept_value(kind, value);
            let left = PARENT_LIMIT as nat;
            &&& is_numbered(r.pdf)
            &&& r.pdf.max_id <= w.pdf.max_id + 2
            &&& is_settable(r.pdf, id, kind)
            &&& w.changed ==> r.changed
            &&& keeps(w.pdf, id, left, v) ==> keeps(r.pdf, id, left, v)
            &&& j == id && (is_switch(kind) || fit_from(fits, id, 0) is Some) ==> r.changed
                && keeps(r.pdf, id, left, v)
        }),
{
    let left = PARENT_LIMIT as nat;
    let v = kept_value(kind, value);
    let p = w.pdf;
    lemma_outer();
    if let Some(d) = as_dict(object_at(p, j)) {
        if let Some(k) = kind_at(p, d) {
            if k != FieldKind::Signature && !is_read_only(flags_of(p, d)) {
                let x = kept_value(k, value);
                lemma_owner_type(p, j, left);
                lemma_owner_type(p, id, left);
                let o = owner_of(p, j, left);
                assert(owner_end(p, j, left) == owner_end(p, id, left) ==> x == v);
                lemma_set_step(p, o, "V"@, x, id, kind, v);
                let q = with_value(p, j, x);
                lemma_set_object(p, o, "V"@, x, j);
                if is_switch(k) {
                    let state = name(switch_state(p, d, value));
                    lemma_set_step(q, j, "AS"@, state, id, kind, v);
                    lemma_set_object(q, j, "AS"@, state, j);
                } else if let Some(n) = fit_from(fits, j, 0) {
                    lemma_line_step(Work { pdf: q, ..w }, j, fits[n], value, id, kind, v);
                }
            }
        }
    }
}

proof fn lemma_widget_steps(
    w: Work,
    ids: Seq<ObjId>,
    i: int,
    value: Seq<char>,
    fits: Seq<FitView>,
    id: ObjId,
    kind: FieldKind,
)
    requires
        is_numbered(w.pdf),
        0 <= i <= ids.len(),
        w.pdf.max_id + 2 * (ids.len() - i) <= u32::MAX,
        is_settable(w.pdf, id, kind),
        is_switch(kind) || fit_from(fits, id, 0) is Some,
        (w.changed && keeps(w.pdf, id, PARENT_LIMIT as nat, kept_value(kind, value))) || exists|
            k: int,
        |
            i <= k < ids.len() && ids[k] == id,
    ensures
        ({
            let r = set_from(w, ids, i, value, fits);
            &&& r.changed
            &&& is_settable(r.pdf, id, kind)
            &&& keeps(r.pdf, id, PARENT_LIMIT as nat, kept_value(kind, value))
        }),
    decreases ids.len() - i,
{
    if i < ids.len() {
        lemma_widget_step(w, ids[i], value, fits, id, kind);
        lemma_widget_steps(
            with_set(w, ids[i], value, fits),
            ids,
            i + 1,
            value,
            fits,
            id,
            kind,
        );
    }
}

/// A field that is set holds what it was set to, in every widget of it that can
/// be written: a state that is switched to, or a text.
pub proof fn law_field_reads_back(
    p: PdfView,
    field: Seq<char>,
    value: Seq<char>,
    fits: Seq<FitView>,
    id: ObjId,
    kind: FieldKind,
)
    requires
        is_numbered(p),
        named_upto(p, field, p.objects.len() as int).contains(id),
        p.max_id + 2 * named_upto(p, field, p.objects.len() as int).len() <= u32::MAX,
        is_settable(p, id, kind),
        is_switch(kind) || fit_from(fits, id, 0) is Some,
    ensures
        ({
            let r = set_pdf(p, field, value, fits);
            &&& r.changed
            &&& as_dict(object_at(r.pdf, id)) is Some
            &&& kind_at(r.pdf, as_dict(object_at(r.pdf, id))->0) == Some(kind)
            &&& value_at(r.pdf, as_dict(object_at(r.pdf, id))->0, kind) == value
        }),
{
    let ids = named_upto(p, field, p.objects.len() as int);
    let v = kept_value(kind, value);
    let k = choose|k: int| 0 <= k < ids.len() && ids[k] == id;
    assert(0 <= k < ids.len() && ids[k] == id);
    lemma_widget_steps(untouched(p), ids, 0, value, fits, id, kind);
    let q = set_pdf(p, field, value, fits).pdf;
    lemma_keeps(q, id, PARENT_LIMIT as nat, v);
    if is_switch(kind) {
        encode_utf8_valid_utf8(value);
        encode_utf8_decode_utf8(value);
    } else {
        law_text_string_reads_back(value);
    }
}

} // verus!
