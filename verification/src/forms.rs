//! Form fields of PDF documents: describing them, setting their values, and
//! giving every widget an appearance that can be drawn as it stands.
use crate::pdf::{
    as_dict, bytes_of, dict_get, dict_in, entries, get, is_sealed, is_word, lemma_entries, lemma_vals,
    object_at, pdf_read, read_pdf, resolved, val, vals, Obj, ObjId, Pdf, PdfView, Val,
};
use crate::pdf_text::{decode_pdf_string, decoded};
use crate::text::{views, Text};
use vstd::prelude::*;

verus! {

// --- Attributes ---

/// How many dictionaries are walked from a widget up to its field.
pub const PARENT_LIMIT: usize = 32;

/// An attribute of a widget, or of the nearest field above it that has one.
pub open spec fn attr(p: PdfView, d: Seq<(Seq<u8>, Val)>, key: Seq<char>, left: nat) -> Option<Val>
    decreases left,
{
    if left == 0 {
        None
    } else {
        match dict_get(d, key) {
            Some(v) => resolved(p, v),
            None => match dict_in(p, d, "Parent"@) {
                Some(up) => attr(p, up, key, (left - 1) as nat),
                None => None,
            },
        }
    }
}

/// An attribute of a widget or of a field above it.
pub open spec fn field_value(p: PdfView, d: Seq<(Seq<u8>, Val)>, key: Seq<char>) -> Option<Val> {
    attr(p, d, key, PARENT_LIMIT as nat)
}

fn find_attr<'a>(
    pdf: &'a Pdf,
    d: &'a Vec<(Vec<u8>, Obj)>,
    key: &str,
    left: usize,
) -> (r: Option<&'a Obj>)
    ensures
        r is Some == attr(pdf@, entries(d@), key@, left as nat) is Some,
        r is Some ==> r->0@ == attr(pdf@, entries(d@), key@, left as nat)->0,
    decreases left,
{
    if left == 0 {
        return None;
    }
    match get(d, key) {
        Some(v) => pdf.deref(v),
        None => match pdf.dict(d, "Parent") {
            Some(up) => find_attr(pdf, up, key, left - 1),
            None => None,
        },
    }
}

/// An attribute (`/FT`, `/V`, …) of a widget, or inherited from a field above
/// it.
pub fn field_attr<'a>(pdf: &'a Pdf, d: &'a Vec<(Vec<u8>, Obj)>, key: &str) -> (r: Option<&'a Obj>)
    ensures
        r is Some == field_value(pdf@, entries(d@), key@) is Some,
        r is Some ==> r->0@ == field_value(pdf@, entries(d@), key@)->0,
{
    find_attr(pdf, d, key, PARENT_LIMIT)
}

// --- Kinds ---

/// What kind of input a form field takes.
#[derive(Clone, Copy, Debug, PartialEq, Eq, Structural)]
pub enum FieldKind {
    /// Free text.
    Text,
    /// An on/off checkbox.
    Checkbox,
    /// One widget of a radio group.
    Radio,
    /// A choice: a combo or list box.
    Choice,
    /// A signature field, which is never written here.
    Signature,
}

/// The flags of a field.
pub open spec fn flags_of(p: PdfView, d: Seq<(Seq<u8>, Val)>) -> i64 {
    match field_value(p, d, "Ff"@) {
        Some(Val::Int(f)) => f,
        _ => 0,
    }
}

/// Whether a field is read-only.
pub open spec fn is_read_only(flags: i64) -> bool {
    flags & 1 != 0
}

/// The kind of a field; pushbuttons hold no value and have none.
pub open spec fn kind_at(p: PdfView, d: Seq<(Seq<u8>, Val)>) -> Option<FieldKind> {
    match field_value(p, d, "FT"@) {
        Some(Val::Name(n)) => if n == bytes_of("Tx"@) {
            Some(FieldKind::Text)
        } else if n == bytes_of("Ch"@) {
            Some(FieldKind::Choice)
        } else if n == bytes_of("Sig"@) {
            Some(FieldKind::Signature)
        } else if n == bytes_of("Btn"@) {
            if flags_of(p, d) & 0x10000 != 0 {
                None
            } else if flags_of(p, d) & 0x8000 != 0 {
                Some(FieldKind::Radio)
            } else {
                Some(FieldKind::Checkbox)
            }
        } else {
            None
        },
        _ => None,
    }
}

pub(crate) fn find_flags(pdf: &Pdf, d: &Vec<(Vec<u8>, Obj)>) -> (r: i64)
    ensures
        r == flags_of(pdf@, entries(d@)),
{
    match field_attr(pdf, d, "Ff") {
        Some(Obj::Int(f)) => *f,
        _ => 0,
    }
}

/// The kind of a widget's field, from its type and flags. `None` for
/// pushbuttons and unknown types.
pub fn kind_of(pdf: &Pdf, d: &Vec<(Vec<u8>, Obj)>) -> (r: Option<FieldKind>)
    ensures
        r == kind_at(pdf@, entries(d@)),
{
    match field_attr(pdf, d, "FT") {
        Some(Obj::Name(n)) => {
            let name = n.as_slice();
            if is_word(name, "Tx") {
                Some(FieldKind::Text)
            } else if is_word(name, "Ch") {
                Some(FieldKind::Choice)
            } else if is_word(name, "Sig") {
                Some(FieldKind::Signature)
            } else if is_word(name, "Btn") {
                let flags: i64 = find_flags(pdf, d);
                if flags & 0x10000 != 0 {
                    None
                } else if flags & 0x8000 != 0 {
                    Some(FieldKind::Radio)
                } else {
                    Some(FieldKind::Checkbox)
                }
            } else {
                None
            }
        },
        _ => None,
    }
}

// --- Names ---

/// `parts` with the names of a dictionary and of those above it. `None` where a
/// name is no string, or what stands above no dictionary.
pub open spec fn names_up(
    p: PdfView,
    d: Seq<(Seq<u8>, Val)>,
    parts: Seq<Seq<char>>,
    left: nat,
) -> Option<Seq<Seq<char>>>
    decreases left,
{
    if left == 0 {
        Some(parts)
    } else {
        let own = match dict_get(d, "T"@) {
            Some(v) => resolved(p, v),
            None => None,
        };
        let with_own = match own {
            Some(Val::Str(s, _)) => Some(parts.push(decoded(s))),
            Some(_) => None,
            None => Some(parts),
        };
        let up = match dict_get(d, "Parent"@) {
            Some(v) => resolved(p, v),
            None => None,
        };
        match with_own {
            Some(next) => match up {
                Some(Val::Dict(above)) => names_up(p, above, next, (left - 1) as nat),
                Some(_) => None,
                None => Some(next),
            },
            None => None,
        }
    }
}

/// Names joined by dots, the last first.
pub open spec fn dotted(parts: Seq<Seq<char>>) -> Seq<char>
    decreases parts.len(),
{
    if parts.len() == 0 {
        seq![]
    } else if parts.len() == 1 {
        parts[0]
    } else {
        parts.last() + seq!['.'] + dotted(parts.drop_last())
    }
}

/// The full name of a widget's field: the names from the topmost field down.
pub open spec fn full_name(p: PdfView, d: Seq<(Seq<u8>, Val)>) -> Option<Seq<char>> {
    match names_up(p, d, seq![], PARENT_LIMIT as nat) {
        Some(parts) => if parts.len() == 0 {
            None
        } else {
            Some(dotted(parts))
        },
        None => None,
    }
}

fn push_names(pdf: &Pdf, d: &Vec<(Vec<u8>, Obj)>, parts: &mut Vec<String>, left: usize) -> (r: bool)
    ensures
        r == names_up(pdf@, entries(d@), views(old(parts)@), left as nat) is Some,
        r ==> views(final(parts)@) == names_up(
            pdf@,
            entries(d@),
            views(old(parts)@),
            left as nat,
        )->0,
    decreases left,
{
    if left == 0 {
        return true;
    }
    let ghost before = views(parts@);
    if let Some(v) = get(d, "T") {
        if let Some(t) = pdf.deref(v) {
            match t {
                Obj::Str(s, _) => {
                    let name = decode_pdf_string(s.as_slice());
                    parts.push(name);
                    assert(views(parts@) =~= before.push(decoded(s@)));
                },
                _ => {
                    return false;
                },
            }
        }
    }
    match get(d, "Parent") {
        Some(v) => match pdf.deref(v) {
            Some(o) => match o {
                Obj::Dict(above) => push_names(pdf, above, parts, left - 1),
                _ => false,
            },
            None => true,
        },
        None => true,
    }
}

fn join_names(parts: &Vec<String>) -> (r: String)
    ensures
        r@ == dotted(views(parts@)),
{
    let ghost all = views(parts@);
    let mut out = String::new();
    let mut i: usize = 0;
    assert(all.take(0) =~= seq![]);
    while i < parts.len()
        invariant
            i <= parts@.len(),
            all == views(parts@),
            out@ == dotted(all.take(i as int)),
        decreases parts.len() - i,
    {
        let mut next = parts[i].clone();
        assert(all[i as int] == parts@[i as int]@);
        assert(all.take(i + 1).drop_last() =~= all.take(i as int));
        assert(all.take(i + 1).last() == all[i as int]);
        if i > 0 {
            crate::text::push_char(&mut next, '.');
            next.append(out.as_str());
            assert(next@ =~= all[i as int] + seq!['.'] + dotted(all.take(i as int)));
        }
        out = next;
        i += 1;
    }
    assert(all.take(all.len() as int) =~= all);
    out
}

/// The full name of a widget's field: every `/T` up the `/Parent` chain, joined
/// with dots, the topmost first.
pub fn qualified_name(pdf: &Pdf, d: &Vec<(Vec<u8>, Obj)>) -> (r: Option<String>)
    ensures
        crate::tree::opt_view(r) == full_name(pdf@, entries(d@)),
{
    let mut parts: Vec<String> = Vec::new();
    assert(views(parts@) =~= seq![]);
    if !push_names(pdf, d, &mut parts, PARENT_LIMIT) || parts.len() == 0 {
        return None;
    }
    Some(join_names(&parts))
}

// --- Rectangles ---

/// A number of a rectangle.
#[derive(PartialEq, Eq, Debug)]
pub enum Num<S> {
    Int(i64),
    Real(S),
}

/// A number as a value.
pub open spec fn num_view(n: Num<String>) -> Num<Seq<char>> {
    match n {
        Num::Int(i) => Num::Int(i),
        Num::Real(t) => Num::Real(t@),
    }
}

/// A value as a number.
pub open spec fn as_num(v: Val) -> Option<Num<Seq<char>>> {
    match v {
        Val::Int(i) => Some(Num::Int(i)),
        Val::Real(t) => Some(Num::Real(t)),
        _ => None,
    }
}

/// The four numbers of a widget's rectangle, as they stand.
pub open spec fn rect_at(p: PdfView, d: Seq<(Seq<u8>, Val)>) -> Option<Seq<Num<Seq<char>>>> {
    match dict_get(d, "Rect"@) {
        Some(v) => match resolved(p, v) {
            Some(Val::Array(a)) => if a.len() >= 4 && as_num(a[0]) is Some && as_num(a[1]) is Some
                && as_num(a[2]) is Some && as_num(a[3]) is Some {
                Some(
                    seq![as_num(a[0])->0, as_num(a[1])->0, as_num(a[2])->0, as_num(a[3])->0],
                )
            } else {
                None
            },
            _ => None,
        },
        None => None,
    }
}

/// Numbers as values.
pub open spec fn num_views(v: Seq<Num<String>>) -> Seq<Num<Seq<char>>> {
    v.map_values(|n: Num<String>| num_view(n))
}

fn read_num(o: &Obj) -> (r: Option<Num<String>>)
    ensures
        r is Some == as_num(o@) is Some,
        r is Some ==> num_view(r->0) == as_num(o@)->0,
{
    match o {
        Obj::Int(i) => Some(Num::Int(*i)),
        Obj::Real(t) => Some(Num::Real(t.clone())),
        _ => None,
    }
}

/// The four numbers of a widget's `/Rect`, as they stand.
pub fn rect_numbers(pdf: &Pdf, d: &Vec<(Vec<u8>, Obj)>) -> (r: Option<Vec<Num<String>>>)
    ensures
        r is Some == rect_at(pdf@, entries(d@)) is Some,
        r is Some ==> num_views(r->0@) == rect_at(pdf@, entries(d@))->0,
{
    let v = match get(d, "Rect") {
        Some(v) => v,
        None => {
            return None;
        },
    };
    match pdf.deref(v) {
        Some(Obj::Array(a)) => {
            proof {
                lemma_vals(a@);
            }
            if a.len() < 4 {
                return None;
            }
            assert(vals(a@)[0] == val(a@[0]));
            assert(vals(a@)[1] == val(a@[1]));
            assert(vals(a@)[2] == val(a@[2]));
            assert(vals(a@)[3] == val(a@[3]));
            match (read_num(&a[0]), read_num(&a[1]), read_num(&a[2]), read_num(&a[3])) {
                (Some(w), Some(x), Some(y), Some(z)) => {
                    let out = vec![w, x, y, z];
                    assert(num_views(out@) =~= rect_at(pdf@, entries(d@))->0);
                    Some(out)
                },
                _ => None,
            }
        },
        _ => None,
    }
}

// --- Describing widgets ---

/// One form widget: where it is, what it takes, and what it holds.
#[derive(Debug)]
pub struct FormField {
    /// The full name of the field, which [`set_form_value`] takes.
    pub name: String,
    pub kind: FieldKind,
    /// The page that the widget sits on, counted from zero.
    pub page: usize,
    /// Two opposite corners of the widget: x, y, x, y.
    pub rect: Vec<Num<String>>,
    /// The text of a text or choice field; the state of a checkbox or radio
    /// button, `Off` where it is off.
    pub value: String,
    pub read_only: bool,
    /// What a choice offers, or the states that a checkbox or radio button can
    /// be switched to.
    pub options: Vec<String>,
}

/// A [`FormField`] as a value.
pub struct FieldView {
    pub name: Seq<char>,
    pub kind: FieldKind,
    pub page: int,
    pub rect: Seq<Num<Seq<char>>>,
    pub value: Seq<char>,
    pub read_only: bool,
    pub options: Seq<Seq<char>>,
}

impl View for FormField {
    type V = FieldView;

    open spec fn view(&self) -> FieldView {
        FieldView {
            name: self.name@,
            kind: self.kind,
            page: self.page as int,
            rect: num_views(self.rect@),
            value: self.value@,
            read_only: self.read_only,
            options: views(self.options@),
        }
    }
}

/// What `String::from_utf8_lossy` makes of bytes that are no UTF-8.
pub uninterp spec fn mended_utf8(bytes: Seq<u8>) -> Seq<char>;

/// The text that bytes read as, where they are meant to be UTF-8.
pub open spec fn utf8_lossy(bytes: Seq<u8>) -> Seq<char> {
    if vstd::utf8::valid_utf8(bytes) {
        vstd::utf8::decode_utf8(bytes)
    } else {
        mended_utf8(bytes)
    }
}

/// What `String::from_utf8_lossy` gives: the text of bytes that are UTF-8; of
/// others it depends on the bytes alone.
#[verifier::external_body]
fn lossy(bytes: &[u8]) -> (r: String)
    ensures
        vstd::utf8::valid_utf8(bytes@) ==> r@ == vstd::utf8::decode_utf8(bytes@),
        !vstd::utf8::valid_utf8(bytes@) ==> r@ == mended_utf8(bytes@),
{
    String::from_utf8_lossy(bytes).into_owned()
}

/// The states that a widget can be drawn in.
pub open spec fn states_at(p: PdfView, d: Seq<(Seq<u8>, Val)>) -> Option<Seq<(Seq<u8>, Val)>> {
    match dict_in(p, d, "AP"@) {
        Some(ap) => dict_in(p, ap, "N"@),
        None => None,
    }
}

pub(crate) fn find_states<'a>(pdf: &'a Pdf, d: &'a Vec<(Vec<u8>, Obj)>) -> (r: Option<
    &'a Vec<(Vec<u8>, Obj)>,
>)
    ensures
        r is Some == states_at(pdf@, entries(d@)) is Some,
        r is Some ==> entries(r->0@) == states_at(pdf@, entries(d@))->0,
{
    match pdf.dict(d, "AP") {
        Some(ap) => pdf.dict(ap, "N"),
        None => None,
    }
}

/// Whether a kind is switched between states.
pub open spec fn is_switch(kind: FieldKind) -> bool {
    kind == FieldKind::Checkbox || kind == FieldKind::Radio
}

/// What a widget holds.
pub open spec fn value_at(p: PdfView, d: Seq<(Seq<u8>, Val)>, kind: FieldKind) -> Seq<char> {
    if is_switch(kind) {
        let v = match field_value(p, d, "V"@) {
            Some(v) => Some(v),
            None => dict_get(d, "AS"@),
        };
        match v {
            Some(Val::Name(n)) => utf8_lossy(n),
            _ => "Off"@,
        }
    } else {
        match field_value(p, d, "V"@) {
            Some(Val::Str(s, _)) => decoded(s),
            _ => seq![],
        }
    }
}

fn find_value(pdf: &Pdf, d: &Vec<(Vec<u8>, Obj)>, kind: FieldKind) -> (r: String)
    ensures
        r@ == value_at(pdf@, entries(d@), kind),
{
    if kind == FieldKind::Checkbox || kind == FieldKind::Radio {
        let v: Option<&Obj> = match field_attr(pdf, d, "V") {
            Some(v) => Some(v),
            None => get(d, "AS"),
        };
        match v {
            Some(Obj::Name(n)) => lossy(n.as_slice()),
            _ => "Off".to_owned(),
        }
    } else {
        match field_attr(pdf, d, "V") {
            Some(Obj::Str(s, _)) => decode_pdf_string(s.as_slice()),
            _ => String::new(),
        }
    }
}

/// The text of a choice's option: a string, or the first of a pair.
pub open spec fn option_text(p: PdfView, v: Val) -> Option<Seq<char>> {
    match resolved(p, v) {
        Some(Val::Str(s, _)) => Some(decoded(s)),
        Some(Val::Array(pair)) => if pair.len() > 0 {
            match pair[0] {
                Val::Str(s, _) => Some(decoded(s)),
                _ => None,
            }
        } else {
            None
        },
        _ => None,
    }
}

/// The options of the first `n` entries of a choice.
pub open spec fn choices_upto(p: PdfView, a: Seq<Val>, n: int) -> Seq<Seq<char>>
    decreases n,
{
    if n <= 0 || n > a.len() {
        seq![]
    } else {
        match option_text(p, a[n - 1]) {
            Some(t) => choices_upto(p, a, n - 1).push(t),
            None => choices_upto(p, a, n - 1),
        }
    }
}

/// The states other than `Off` among the first `n`.
pub open spec fn states_upto(d: Seq<(Seq<u8>, Val)>, n: int) -> Seq<Seq<char>>
    decreases n,
{
    if n <= 0 || n > d.len() {
        seq![]
    } else if d[n - 1].0 == bytes_of("Off"@) {
        states_upto(d, n - 1)
    } else {
        states_upto(d, n - 1).push(utf8_lossy(d[n - 1].0))
    }
}

/// What a widget offers.
pub open spec fn options_at(p: PdfView, d: Seq<(Seq<u8>, Val)>, kind: FieldKind) -> Seq<Seq<char>> {
    if kind == FieldKind::Choice {
        match field_value(p, d, "Opt"@) {
            Some(Val::Array(a)) => choices_upto(p, a, a.len() as int),
            _ => seq![],
        }
    } else if is_switch(kind) {
        match states_at(p, d) {
            Some(states) => states_upto(states, states.len() as int),
            None => seq![],
        }
    } else {
        seq![]
    }
}

fn read_option(pdf: &Pdf, o: &Obj) -> (r: Option<String>)
    ensures
        crate::tree::opt_view(r) == option_text(pdf@, o@),
{
    match pdf.deref(o) {
        Some(v) => match v {
            Obj::Str(s, _) => Some(decode_pdf_string(s.as_slice())),
            Obj::Array(pair) => {
                proof {
                    lemma_vals(pair@);
                }
                if pair.len() > 0 {
                    assert(vals(pair@)[0] == val(pair@[0]));
                    match &pair[0] {
                        Obj::Str(s, _) => Some(decode_pdf_string(s.as_slice())),
                        _ => None,
                    }
                } else {
                    None
                }
            },
            _ => None,
        },
        None => None,
    }
}

fn find_options(pdf: &Pdf, d: &Vec<(Vec<u8>, Obj)>, kind: FieldKind) -> (r: Vec<String>)
    ensures
        views(r@) == options_at(pdf@, entries(d@), kind),
{
    let mut out: Vec<String> = Vec::new();
    assert(views(out@) =~= seq![]);
    if kind == FieldKind::Choice {
        if let Some(Obj::Array(a)) = field_attr(pdf, d, "Opt") {
            let ghost all = vals(a@);
            proof {
                lemma_vals(a@);
            }
            let mut i: usize = 0;
            while i < a.len()
                invariant
                    i <= a@.len(),
                    all.len() == a@.len(),
                    forall|k: int| 0 <= k < a@.len() ==> #[trigger] all[k] == val(a@[k]),
                    views(out@) == choices_upto(pdf@, all, i as int),
                decreases a.len() - i,
            {
                let ghost before = views(out@);
                assert(all[i as int] == val(a@[i as int]));
                if let Some(t) = read_option(pdf, &a[i]) {
                    out.push(t);
                    assert(views(out@) =~= before.push(t@));
                }
                i += 1;
            }
        }
    } else if kind == FieldKind::Checkbox || kind == FieldKind::Radio {
        if let Some(states) = find_states(pdf, d) {
            let ghost all = entries(states@);
            proof {
                lemma_entries(states@);
            }
            let mut i: usize = 0;
            while i < states.len()
                invariant
                    i <= states@.len(),
                    all.len() == states@.len(),
                    forall|k: int|
                        0 <= k < all.len() ==> #[trigger] all[k] == (
                            states@[k].0@,
                            val(states@[k].1),
                        ),
                    views(out@) == states_upto(all, i as int),
                decreases states.len() - i,
            {
                let ghost before = views(out@);
                assert(all[i as int] == (states@[i as int].0@, val(states@[i as int].1)));
                let key = states[i].0.as_slice();
                if !is_word(key, "Off") {
                    let t = lossy(key);
                    out.push(t);
                    assert(views(out@) =~= before.push(utf8_lossy(key@)));
                }
                i += 1;
            }
        }
    }
    out
}

/// The description of a widget. `None` for one without a kind, a name or a
/// readable rectangle.
pub open spec fn described(p: PdfView, d: Seq<(Seq<u8>, Val)>, page: int) -> Option<FieldView> {
    match (kind_at(p, d), full_name(p, d), rect_at(p, d)) {
        (Some(kind), Some(name), Some(rect)) => Some(
            FieldView {
                name,
                kind,
                page,
                rect,
                value: value_at(p, d, kind),
                read_only: is_read_only(flags_of(p, d)),
                options: options_at(p, d, kind),
            },
        ),
        _ => None,
    }
}

/// Describes one widget for [`form_fields`].
pub fn describe_widget(pdf: &Pdf, d: &Vec<(Vec<u8>, Obj)>, page: usize) -> (r: Option<FormField>)
    ensures
        r is Some == described(pdf@, entries(d@), page as int) is Some,
        r is Some ==> r->0@ == described(pdf@, entries(d@), page as int)->0,
{
    let kind = match kind_of(pdf, d) {
        Some(k) => k,
        None => {
            return None;
        },
    };
    let name = match qualified_name(pdf, d) {
        Some(n) => n,
        None => {
            return None;
        },
    };
    let rect = match rect_numbers(pdf, d) {
        Some(r) => r,
        None => {
            return None;
        },
    };
    let flags: i64 = find_flags(pdf, d);
    let value = find_value(pdf, d, kind);
    let options = find_options(pdf, d, kind);
    Some(FormField { name, kind, page, rect, value, read_only: flags & 1 != 0, options })
}

/// Whether a dictionary is a widget.
pub open spec fn is_widget(d: Seq<(Seq<u8>, Val)>) -> bool {
    dict_get(d, "Subtype"@) == Some(Val::Name(bytes_of("Widget"@)))
}

pub(crate) fn check_widget(d: &Vec<(Vec<u8>, Obj)>) -> (r: bool)
    ensures
        r == is_widget(entries(d@)),
{
    match get(d, "Subtype") {
        Some(Obj::Name(n)) => is_word(n.as_slice(), "Widget"),
        _ => false,
    }
}

/// The widgets among the first `n` annotations of a page.
pub open spec fn annots_upto(p: PdfView, a: Seq<Val>, n: int, page: int) -> Seq<FieldView>
    decreases n,
{
    if n <= 0 || n > a.len() {
        seq![]
    } else {
        let before = annots_upto(p, a, n - 1, page);
        match as_dict(resolved(p, a[n - 1])) {
            Some(d) => if is_widget(d) && described(p, d, page) is Some {
                before.push(described(p, d, page)->0)
            } else {
                before
            },
            None => before,
        }
    }
}

/// The annotations of a page.
pub open spec fn annots_at(p: PdfView, page: ObjId) -> Option<Seq<Val>> {
    match as_dict(object_at(p, page)) {
        Some(d) => match dict_get(d, "Annots"@) {
            Some(v) => match resolved(p, v) {
                Some(Val::Array(a)) => Some(a),
                _ => None,
            },
            None => None,
        },
        None => None,
    }
}

/// The widgets of the first `n` pages, in order.
pub open spec fn fields_upto(p: PdfView, n: int) -> Seq<FieldView>
    decreases n,
{
    if n <= 0 || n > p.pages.len() {
        seq![]
    } else {
        match annots_at(p, p.pages[n - 1]) {
            Some(a) => fields_upto(p, n - 1) + annots_upto(p, a, a.len() as int, n - 1),
            None => fields_upto(p, n - 1),
        }
    }
}

/// Fields as values.
pub open spec fn field_views(v: Seq<FormField>) -> Seq<FieldView> {
    v.map_values(|f: FormField| f@)
}

fn find_annots<'a>(pdf: &'a Pdf, page: ObjId) -> (r: Option<&'a Vec<Obj>>)
    ensures
        r is Some == annots_at(pdf@, page) is Some,
        r is Some ==> vals(r->0@) == annots_at(pdf@, page)->0,
{
    match pdf.dict_at(page) {
        Some(d) => match get(d, "Annots") {
            Some(v) => match pdf.deref(v) {
                Some(Obj::Array(a)) => Some(a),
                _ => None,
            },
            None => None,
        },
        None => None,
    }
}

/// Every form widget of a document that was read, in page order.
pub fn fields_in(pdf: &Pdf) -> (r: Vec<FormField>)
    ensures
        field_views(r@) == fields_upto(pdf@, pdf@.pages.len() as int),
{
    let mut out: Vec<FormField> = Vec::new();
    assert(field_views(out@) =~= seq![]);
    let mut k: usize = 0;
    while k < pdf.pages.len()
        invariant
            k <= pdf.pages@.len(),
            field_views(out@) == fields_upto(pdf@, k as int),
        decreases pdf.pages.len() - k,
    {
        let ghost start = field_views(out@);
        if let Some(a) = find_annots(pdf, pdf.pages[k]) {
            let ghost all = vals(a@);
            proof {
                lemma_vals(a@);
            }
            assert(start + annots_upto(pdf@, all, 0, k as int) =~= start);
            let mut i: usize = 0;
            while i < a.len()
                invariant
                    i <= a@.len(),
                    all.len() == a@.len(),
                    forall|j: int| 0 <= j < a@.len() ==> #[trigger] all[j] == val(a@[j]),
                    field_views(out@) == start + annots_upto(pdf@, all, i as int, k as int),
                decreases a.len() - i,
            {
                let ghost before = field_views(out@);
                assert(all[i as int] == val(a@[i as int]));
                if let Some(Obj::Dict(d)) = pdf.deref(&a[i]) {
                    if check_widget(d) {
                        if let Some(f) = describe_widget(pdf, d, k) {
                            let ghost v = f@;
                            out.push(f);
                            assert(field_views(out@) =~= before.push(v));
                            assert(before.push(v) =~= start + annots_upto(
                                pdf@,
                                all,
                                i as int,
                                k as int,
                            ).push(v));
                        }
                    }
                }
                i += 1;
            }
        }
        k += 1;
    }
    out
}

/// The fields that a file holds; none where it is encrypted or no document.
pub open spec fn fields_of(bytes: Seq<u8>) -> Seq<FieldView> {
    match pdf_read(bytes) {
        Some(p) => if is_sealed(p) {
            seq![]
        } else {
            fields_upto(p, p.pages.len() as int)
        },
        None => seq![],
    }
}

/// Every form widget in a document, in page order. Pushbuttons are skipped; an
/// encrypted or unreadable file has none.
pub fn form_fields(bytes: &[u8]) -> (r: Vec<FormField>)
    ensures
        field_views(r@) == fields_of(bytes@),
{
    match read_pdf(bytes) {
        Some(pdf) => if !pdf.sealed() {
            return fields_in(&pdf);
        },
        None => {},
    }
    let none: Vec<FormField> = Vec::new();
    assert(field_views(none@) =~= seq![]);
    none
}

} // verus!
