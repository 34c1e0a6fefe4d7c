//! How the widgets of a form come to show what their fields hold.
use crate::form_edits::{
    drawn_as, fit_from, line_content, line_object, name, named_upto, normal_pdf, owner_of,
    state_at, unseen_text, widgets_upto, with_font, with_line, with_set, with_state, with_value,
    FitView, Work,
};
use crate::form_edits::{font_dict, switch_state};
use crate::form_laws::{
    is_numbered, lemma_added, lemma_set_object, reaches_owner,
};
use crate::forms::{
    flags_of, full_name, is_read_only, is_switch, is_widget, kind_at, states_at, FieldKind,
    PARENT_LIMIT,
};
use crate::normal_laws::{lemma_normal_quiet, settles};
use crate::pdf::{
    added, as_dict, bytes_of, dict_get, end_from, entry_set, key_from, law_set_then_get,
    lemma_end_from, lemma_object_from, object_at, object_from, ObjId, PdfView, Val, DEREF_LIMIT,
};
use crate::pdf_text::{decoded, escaped_char, escaped_upto};
use vstd::prelude::*;

verus! {

// --- Literals ---

/// What the inside of a literal reads as: a byte behind a backslash stands for
/// itself.
pub open spec fn literal_text(b: Seq<u8>) -> Seq<u8>
    decreases b.len(),
{
    if b.len() == 0 {
        seq![]
    } else if b[0] == 92 && b.len() > 1 {
        seq![b[1]] + literal_text(b.skip(2))
    } else {
        seq![b[0]] + literal_text(b.skip(1))
    }
}

/// What is written for text: a byte for each character, a space for a line feed,
/// and a question mark for what has no byte.
pub open spec fn written(s: Seq<char>) -> Seq<u8> {
    Seq::new(
        s.len(),
        |k: int|
            if s[k] == '\n' || s[k] == '\r' {
                32u8
            } else if s[k] as u32 <= 0xff {
                s[k] as u8
            } else {
                63u8
            },
    )
}

proof fn lemma_escaped_first(s: Seq<char>, n: int)
    requires
        0 < n <= s.len(),
    ensures
        escaped_upto(s, n) == escaped_char(s[0]) + escaped_upto(s.skip(1), n - 1),
    decreases n,
{
    let rest = s.skip(1);
    if n > 1 {
        lemma_escaped_first(s, n - 1);
        assert(rest[n - 2] == s[n - 1]);
        assert(escaped_upto(s, n) =~= escaped_char(s[0]) + escaped_upto(rest, n - 1));
    } else {
        assert(escaped_upto(s, 0) =~= Seq::<u8>::empty());
        assert(escaped_upto(rest, 0) =~= Seq::<u8>::empty());
        assert(escaped_upto(s, 1) =~= escaped_char(s[0]) + escaped_upto(rest, 0));
    }
}

proof fn lemma_escaped_reads(c: char)
    ensures
        ({
            let e = escaped_char(c);
            let w = written(seq![c])[0];
            ||| e.len() == 1 && e[0] == w && e[0] != 92
            ||| e.len() == 2 && e[0] == 92 && e[1] == w
        }),
{
    if c as u32 <= 0xff {
        assert(c as u8 as u32 == c as u32);
    }
}

/// Text that is written as a literal reads back, with spaces for line feeds.
pub proof fn law_a_literal_reads_back(s: Seq<char>)
    ensures
        literal_text(escaped_upto(s, s.len() as int)) == written(s),
    decreases s.len(),
{
    let all = escaped_upto(s, s.len() as int);
    if s.len() > 0 {
        let rest = s.skip(1);
        law_a_literal_reads_back(rest);
        lemma_escaped_first(s, s.len() as int);
        let e = escaped_char(s[0]);
        let tail = escaped_upto(rest, rest.len() as int);
        assert(all == e + tail);
        assert(all.skip(e.len() as int) =~= tail);
        assert(all[0] == e[0]);
        lemma_escaped_reads(s[0]);
        if e.len() == 2 {
            assert(all[1] == e[1]);
            assert(literal_text(all) =~= seq![e[1]] + literal_text(tail));
        } else {
            assert(literal_text(all) =~= seq![e[0]] + literal_text(tail));
        }
        assert(literal_text(all) =~= seq![written(s)[0]] + written(rest));
        assert(written(s) =~= seq![written(s)[0]] + written(rest));
    } else {
        assert(written(s) =~= Seq::<u8>::empty());
    }
}

// --- Appearances ---

/// What a widget is drawn as.
pub open spec fn appearance(p: PdfView, id: ObjId) -> Option<Val> {
    match as_dict(object_at(p, id)) {
        Some(d) => match dict_get(d, "AP"@) {
            Some(Val::Dict(ap)) => match dict_get(ap, "N"@) {
                Some(Val::Ref(x)) => object_at(p, x),
                _ => None,
            },
            _ => None,
        },
        None => None,
    }
}

/// Whether a content stream shows one literal, which reads as `b`.
pub open spec fn shows(content: Seq<u8>, b: Seq<u8>) -> bool {
    exists|i: int, j: int|
        0 < i <= j < content.len() && content[i - 1] == 40 && content[j] == 41
            && #[trigger] literal_text(content.subrange(i, j)) == b
}

pub(crate) proof fn lemma_fresh(p: PdfView, v: Val)
    requires
        is_numbered(p),
        p.max_id < u32::MAX,
        !(v is Ref),
    ensures
        ({
            let (q, x) = added(p, v);
            &&& x is Some
            &&& object_at(q, x->0) == Some(v)
            &&& end_from(q.objects, x->0, DEREF_LIMIT as nat) == Some(p.objects.len() as int)
            &&& q.objects == p.objects.push((x->0, v))
        }),
{
    let (q, x) = added(p, v);
    lemma_object_from(p.objects, x->0, 0);
    if let Some(k) = object_from(p.objects, x->0, 0) {
        assert(p.objects[k].0.num <= p.max_id);
    }
    lemma_object_from(q.objects, x->0, 0);
    let n = p.objects.len() as int;
    assert(q.objects[n] == (x->0, v));
    match object_from(q.objects, x->0, 0) {
        Some(k) => {
            if k < n {
                assert(q.objects[k] == p.objects[k]);
            }
        },
        None => {},
    }
}

proof fn lemma_content(fit: FitView, text: Seq<char>)
    ensures
        shows(line_content(fit, text), written(text)),
{
    reveal_strlit(" Td (");
    reveal_strlit(") Tj ET");
    let a = bytes_of("BT /Helv "@ + fit.size + " Tf 0 g 2 "@ + fit.base + " Td ("@);
    let e = escaped_upto(text, text.len() as int);
    let z = bytes_of(") Tj ET"@);
    let content = line_content(fit, text);
    lemma_last_byte("BT /Helv "@ + fit.size + " Tf 0 g 2 "@ + fit.base + " Td ("@);
    lemma_first_byte(") Tj ET"@);
    let i = a.len() as int;
    let j = i + e.len();
    assert(content.subrange(i, j) =~= e);
    assert(content[i - 1] == a.last());
    assert(content[j] == z[0]);
    law_a_literal_reads_back(text);
    assert(literal_text(content.subrange(i, j)) == written(text));
}

proof fn lemma_bytes_concat(a: Seq<char>, b: Seq<char>)
    ensures
        bytes_of(a + b) == bytes_of(a) + bytes_of(b),
    decreases a.len(),
{
    if a.len() > 0 {
        lemma_bytes_concat(a.drop_first(), b);
        assert((a + b).drop_first() =~= a.drop_first() + b);
        assert(bytes_of(a + b) =~= bytes_of(a) + bytes_of(b));
    } else {
        assert(a + b =~= b);
        assert(bytes_of(a) + bytes_of(b) =~= bytes_of(b));
    }
}

proof fn lemma_last_byte(s: Seq<char>)
    requires
        s.len() > 0,
        s.last() == '(',
    ensures
        bytes_of(s).len() > 0,
        bytes_of(s).last() == 40,
{
    let one = seq!['('];
    assert(s =~= s.drop_last() + one);
    lemma_bytes_concat(s.drop_last(), one);
    vstd::utf8::is_ascii_chars_encode_utf8(one);
    let b = bytes_of(one);
    assert(b.len() == 1 && b[0] == one[0] as u8);
}

proof fn lemma_first_byte(s: Seq<char>)
    requires
        s.len() > 0,
        s[0] == ')',
    ensures
        bytes_of(s).len() > 0,
        bytes_of(s)[0] == 41,
{
    let one = seq![')'];
    assert(s =~= one + s.skip(1));
    lemma_bytes_concat(one, s.skip(1));
    vstd::utf8::is_ascii_chars_encode_utf8(one);
    let b = bytes_of(one);
    assert(b.len() == 1 && b[0] == one[0] as u8);
}

/// A widget that is given a line of text is drawn as a stream that shows that
/// text.
pub proof fn law_a_drawn_line_shows_its_text(w: Work, id: ObjId, fit: FitView, text: Seq<char>)
    requires
        is_numbered(w.pdf),
        w.pdf.max_id <= u32::MAX - 2,
        as_dict(object_at(w.pdf, id)) is Some,
    ensures
        ({
            let r = with_line(w, id, fit, text);
            &&& r.changed
            &&& appearance(r.pdf, id) matches Some(Val::Stream(_, content)) && shows(
                content,
                written(text),
            )
        }),
{
    let f = with_font(w);
    if w.font is None {
        lemma_added(w.pdf, font_dict(), id);
    }
    let line = line_object(fit, text, f.font->0);
    lemma_added(f.pdf, line, id);
    lemma_fresh(f.pdf, line);
    let (p, x) = added(f.pdf, line);
    let ap = drawn_as(x->0);
    lemma_set_object(p, id, "AP"@, ap, id);
    lemma_set_object(p, id, "AP"@, ap, x->0);
    lemma_end_from(p.objects, id, DEREF_LIMIT as nat);
    let d = as_dict(object_at(p, id))->0;
    law_set_then_get(d, "AP"@, ap, "AP"@);
    law_set_then_get(seq![], "N"@, Val::Ref(x->0), "N"@);
    lemma_content(fit, text);
}

/// A widget whose appearance is a choice is drawn as the choice of its state.
pub proof fn law_a_state_is_drawn(w: Work, id: ObjId, target: ObjId)
    requires
        state_at(w.pdf, id) == Some(Val::Ref(target)),
    ensures
        ({
            let r = with_state(w, id);
            let d = as_dict(object_at(r.pdf, id))->0;
            &&& r.changed
            &&& as_dict(object_at(r.pdf, id)) is Some
            &&& dict_get(d, "AP"@) matches Some(Val::Dict(ap)) && dict_get(ap, "N"@) == Some(
                Val::Ref(target),
            )
        }),
{
    let ap = drawn_as(target);
    lemma_set_object(w.pdf, id, "AP"@, ap, id);
    law_set_then_get(as_dict(object_at(w.pdf, id))->0, "AP"@, ap, "AP"@);
    law_set_then_get(seq![], "N"@, Val::Ref(target), "N"@);
}

/// After normalizing, every text widget that there is room for shows its text.
pub proof fn law_normal_widgets_show_their_text(p: PdfView, fits: Seq<FitView>, k: int)
    requires
        is_numbered(p),
        forall|k: int|
            0 <= k < widgets_upto(p.objects, p.objects.len() as int).len() ==> settles(
                p,
                #[trigger] widgets_upto(p.objects, p.objects.len() as int)[k],
            ),
        ({
            let q = normal_pdf(p, fits).pdf;
            0 <= k < widgets_upto(q.objects, q.objects.len() as int).len()
        }),
    ensures
        ({
            let q = normal_pdf(p, fits).pdf;
            let id = widgets_upto(q.objects, q.objects.len() as int)[k];
            fit_from(fits, id, 0) is Some && q.max_id <= u32::MAX - 2 ==> unseen_text(q, id)
                is None
        }),
{
    lemma_normal_quiet(p, fits);
    let q = normal_pdf(p, fits).pdf;
    let now = widgets_upto(q.objects, q.objects.len() as int);
    assert(crate::normal_laws::is_quiet(q, now[k], fits));
}

// --- Setting ---

/// A switch that is set shows the state that it was set to, where it can show
/// it, and else shows that it is off.
pub proof fn law_a_switch_shows_its_state(
    w: Work,
    id: ObjId,
    value: Seq<char>,
    fits: Seq<FitView>,
    kind: FieldKind,
)
    requires
        reaches_owner(w.pdf, id, PARENT_LIMIT as nat),
        kind_at(w.pdf, as_dict(object_at(w.pdf, id))->0) == Some(kind),
        is_switch(kind),
        !is_read_only(flags_of(w.pdf, as_dict(object_at(w.pdf, id))->0)),
    ensures
        ({
            let r = with_set(w, id, value, fits);
            let d = as_dict(object_at(w.pdf, id))->0;
            let e = as_dict(object_at(r.pdf, id))->0;
            let known = states_at(w.pdf, d) is Some && key_from(
                states_at(w.pdf, d)->0,
                bytes_of(value),
                0,
            ) is Some;
            &&& as_dict(object_at(r.pdf, id)) is Some
            &&& known ==> dict_get(e, "AS"@) == Some(Val::Name(bytes_of(value)))
            &&& !known ==> dict_get(e, "AS"@) == Some(Val::Name(bytes_of("Off"@)))
        }),
{
    let d = as_dict(object_at(w.pdf, id))->0;
    let p = with_value(w.pdf, id, name(value));
    crate::form_laws::law_value_reads_back(w.pdf, id, name(value));
    let x = name(switch_state(w.pdf, d, value));
    lemma_set_object(p, id, "AS"@, x, id);
    law_set_then_get(as_dict(object_at(p, id))->0, "AS"@, x, "AS"@);
}

/// Signatures, read-only fields and what is no field stay as they are.
pub proof fn law_some_fields_are_not_set(w: Work, id: ObjId, value: Seq<char>, fits: Seq<FitView>)
    ensures
        as_dict(object_at(w.pdf, id)) is None ==> with_set(w, id, value, fits) == w,
        as_dict(object_at(w.pdf, id)) matches Some(d) ==> {
            &&& kind_at(w.pdf, d) is None ==> with_set(w, id, value, fits) == w
            &&& kind_at(w.pdf, d) == Some(FieldKind::Signature) ==> with_set(w, id, value, fits)
                == w
            &&& is_read_only(flags_of(w.pdf, d)) ==> with_set(w, id, value, fits) == w
        },
{
}

proof fn lemma_entry_only(p: PdfView, id: ObjId, key: Seq<char>, v: Val, k: int)
    requires
        0 <= k < p.objects.len(),
        end_from(p.objects, id, DEREF_LIMIT as nat) != Some(k),
    ensures
        entry_set(p, id, key, v).0.objects.len() == p.objects.len(),
        entry_set(p, id, key, v).0.objects[k] == p.objects[k],
{
    lemma_end_from(p.objects, id, DEREF_LIMIT as nat);
}

/// Setting the value of a field changes the object that keeps it and no other.
pub proof fn law_setting_changes_one_object(p: PdfView, id: ObjId, v: Val, k: int)
    requires
        0 <= k < p.objects.len(),
        end_from(
            p.objects,
            owner_of(p, id, PARENT_LIMIT as nat),
            DEREF_LIMIT as nat,
        ) != Some(k),
    ensures
        with_value(p, id, v).objects.len() == p.objects.len(),
        with_value(p, id, v).objects[k] == p.objects[k],
{
    lemma_entry_only(p, owner_of(p, id, PARENT_LIMIT as nat), "V"@, v, k);
}

/// The widgets of a field are those among all objects that bear its full name.
pub proof fn law_a_field_has_its_widgets(p: PdfView, field: Seq<char>, n: int, id: ObjId)
    requires
        0 <= n <= p.objects.len(),
    ensures
        named_upto(p, field, n).contains(id) <==> exists|k: int|
            0 <= k < n && #[trigger] bears(p, k, field) && p.objects[k].0 == id,
    decreases n,
{
    let all = named_upto(p, field, n);
    if n > 0 {
        law_a_field_has_its_widgets(p, field, n - 1, id);
        let before = named_upto(p, field, n - 1);
        if all.contains(id) {
            let j = choose|j: int| 0 <= j < all.len() && all[j] == id;
            if j < before.len() {
                assert(before[j] == id);
            } else {
                assert(bears(p, n - 1, field));
            }
        }
        if exists|k: int| 0 <= k < n && #[trigger] bears(p, k, field) && p.objects[k].0 == id {
            let k = choose|k: int|
                0 <= k < n && #[trigger] bears(p, k, field) && p.objects[k].0 == id;
            if k == n - 1 {
                assert(all.last() == id);
                assert(all[all.len() - 1] == id);
            } else {
                assert(0 <= k < n - 1 && bears(p, k, field) && p.objects[k].0 == id);
                let j = choose|j: int| 0 <= j < before.len() && before[j] == id;
                assert(all[j] == id);
            }
        }
    }
}

/// Whether the object at `k` is a widget of a field.
pub open spec fn bears(p: PdfView, k: int, field: Seq<char>) -> bool {
    match as_dict(Some(p.objects[k].1)) {
        Some(d) => is_widget(d) && full_name(p, d) == Some(field),
        None => false,
    }
}

// --- Reading ---

/// Text without the mark of UTF-16 reads as one character for each byte, of the
/// same number.
pub proof fn law_bytes_read_as_characters(b: Seq<u8>, i: int)
    requires
        0 <= i < b.len(),
        b.len() < 2 || !(b[0] == 0xfe && b[1] == 0xff),
    ensures
        decoded(b).len() == b.len(),
        decoded(b)[i] as u32 == b[i],
{
}

/// A field is read-only by the lowest of its flags.
pub proof fn law_the_lowest_flag_is_read_only(flags: i64)
    requires
        flags >= 0,
    ensures
        is_read_only(flags) <==> flags % 2 == 1,
{
    assert((flags & 1 != 0) == (flags % 2 == 1)) by (bit_vector)
        requires
            flags >= 0,
    ;
}

} // verus!
