//! Changing form fields: setting a value, and giving widgets an appearance.
use crate::forms::{
    field_attr, field_value, flags_of, full_name, is_read_only, is_switch, is_widget, kind_at,
    kind_of, qualified_name, rect_at, rect_numbers, states_at, FieldKind, Num, PARENT_LIMIT,
};
use crate::forms::{check_widget, find_flags, find_states, num_views};
use crate::pdf::{
    added, as_dict, bytes_of, copy_obj, dict_get, dict_set, entries, entry_set, get, has_bytes,
    is_sealed, is_word, key_from, lemma_entries, object_at, object_from, object_views, pdf_read, pdf_written,
    put_entry, read_pdf, to_bytes, val, write_pdf, Obj, ObjId, Pdf, PdfView, Val,
};
use crate::pdf_text::{
    decode_pdf_string, decoded, encode_pdf_string, escape_pdf_text, escaped_upto, text_string,
};
use crate::text::{trim, trim_range, Text};
use vstd::prelude::*;

verus! {

// --- Appearances ---

/// How a line of text fits into a widget: the size of the widget, the size of
/// the letters, and the height of their base line, as they are printed.
#[derive(PartialEq, Eq, Debug)]
pub struct Fit {
    pub widget: ObjId,
    pub width: String,
    pub height: String,
    pub size: String,
    pub base: String,
}

/// A [`Fit`] as a value.
pub struct FitView {
    pub widget: ObjId,
    pub width: Seq<char>,
    pub height: Seq<char>,
    pub size: Seq<char>,
    pub base: Seq<char>,
}

impl View for Fit {
    type V = FitView;

    open spec fn view(&self) -> FitView {
        FitView {
            widget: self.widget,
            width: self.width@,
            height: self.height@,
            size: self.size@,
            base: self.base@,
        }
    }
}

/// Fits as values.
pub open spec fn fit_views(v: Seq<Fit>) -> Seq<FitView> {
    v.map_values(|f: Fit| f@)
}

/// The fit of a widget, from `i` on.
pub open spec fn fit_from(all: Seq<FitView>, id: ObjId, i: int) -> Option<int>
    decreases all.len() - i,
{
    if i < 0 || i >= all.len() {
        None
    } else if all[i].widget == id {
        Some(i)
    } else {
        fit_from(all, id, i + 1)
    }
}

fn find_fit(fits: &Vec<Fit>, id: ObjId) -> (r: Option<usize>)
    ensures
        r is Some == fit_from(fit_views(fits@), id, 0) is Some,
        r is Some ==> r->0 as int == fit_from(fit_views(fits@), id, 0)->0 && r->0 < fits@.len(),
{
    let ghost all = fit_views(fits@);
    let mut i: usize = 0;
    while i < fits.len()
        invariant
            i <= fits@.len(),
            all == fit_views(fits@),
            fit_from(all, id, 0) == fit_from(all, id, i as int),
        decreases fits.len() - i,
    {
        assert(all[i as int] == fits@[i as int]@);
        if fits[i].widget == id {
            return Some(i);
        }
        i += 1;
    }
    None
}

/// A name as a value.
pub open spec fn name(s: Seq<char>) -> Val {
    Val::Name(bytes_of(s))
}

/// The dictionary of the font that appearances are set in.
pub open spec fn font_dict() -> Val {
    let a = dict_set(seq![], "Type"@, name("Font"@));
    let b = dict_set(a, "Subtype"@, name("Type1"@));
    let c = dict_set(b, "BaseFont"@, name("Helvetica"@));
    Val::Dict(dict_set(c, "Encoding"@, name("WinAnsiEncoding"@)))
}

/// The content stream that shows one line of text.
pub open spec fn line_content(fit: FitView, text: Seq<char>) -> Seq<u8> {
    bytes_of("BT /Helv "@ + fit.size + " Tf 0 g 2 "@ + fit.base + " Td ("@) + escaped_upto(
        text,
        text.len() as int,
    ) + bytes_of(") Tj ET"@)
}

/// The object that shows one line of text.
pub open spec fn line_object(fit: FitView, text: Seq<char>, font: ObjId) -> Val {
    let content = line_content(fit, text);
    let fonts = Val::Dict(dict_set(seq![], "Helv"@, Val::Ref(font)));
    let res = Val::Dict(dict_set(seq![], "Font"@, fonts));
    let a = dict_set(seq![], "Type"@, name("XObject"@));
    let b = dict_set(a, "Subtype"@, name("Form"@));
    let c = dict_set(
        b,
        "BBox"@,
        Val::Array(
            seq![Val::Int(0), Val::Int(0), Val::Real(fit.width), Val::Real(fit.height)],
        ),
    );
    let d = dict_set(c, "Resources"@, res);
    Val::Stream(dict_set(d, "Length"@, Val::Int(content.len() as i64)), content)
}

/// An appearance that is drawn as the object `id`.
pub open spec fn drawn_as(id: ObjId) -> Val {
    Val::Dict(dict_set(seq![], "N"@, Val::Ref(id)))
}

/// A document that is being changed, the font in use, and whether anything was
/// changed.
pub struct Work {
    pub pdf: PdfView,
    pub font: Option<ObjId>,
    pub changed: bool,
}

/// `w` with the font of appearances.
pub open spec fn with_font(w: Work) -> Work {
    match w.font {
        Some(_) => w,
        None => {
            let (p, id) = added(w.pdf, font_dict());
            Work { pdf: p, font: id, ..w }
        },
    }
}

/// `w` with a widget that shows one line of text. Nothing changes where the
/// object numbers are used up.
pub open spec fn with_line(w: Work, id: ObjId, fit: FitView, text: Seq<char>) -> Work {
    if w.pdf.max_id > u32::MAX - 2 {
        w
    } else {
        let f = with_font(w);
        let (p, x) = added(f.pdf, line_object(fit, text, f.font->0));
        let (q, ok) = entry_set(p, id, "AP"@, drawn_as(x->0));
        Work { pdf: q, font: f.font, changed: w.changed || ok }
    }
}

struct Bench {
    pdf: Pdf,
    font: Option<ObjId>,
    changed: bool,
}

spec fn work(b: Bench) -> Work {
    Work { pdf: b.pdf@, font: b.font, changed: b.changed }
}

proof fn lemma_no_entries()
    ensures
        entries(Seq::<(Vec<u8>, Obj)>::empty()) == Seq::<(Seq<u8>, Val)>::empty(),
{
    lemma_entries(Seq::<(Vec<u8>, Obj)>::empty());
    assert(entries(Seq::<(Vec<u8>, Obj)>::empty()) =~= Seq::<(Seq<u8>, Val)>::empty());
}

fn name_obj(s: &str) -> (r: Obj)
    ensures
        r@ == name(s@),
{
    Obj::Name(to_bytes(s))
}

fn make_font() -> (r: Obj)
    ensures
        r@ == font_dict(),
{
    let mut d: Vec<(Vec<u8>, Obj)> = Vec::new();
    proof {
        lemma_no_entries();
    }
    put_entry(&mut d, "Type", name_obj("Font"));
    put_entry(&mut d, "Subtype", name_obj("Type1"));
    put_entry(&mut d, "BaseFont", name_obj("Helvetica"));
    put_entry(&mut d, "Encoding", name_obj("WinAnsiEncoding"));
    Obj::Dict(d)
}

fn push_bytes(out: &mut Vec<u8>, more: &[u8])
    ensures
        final(out)@ == old(out)@ + more@,
{
    let ghost before = out@;
    let mut i: usize = 0;
    assert(before + more@.take(0) =~= before);
    while i < more.len()
        invariant
            i <= more@.len(),
            out@ == before + more@.take(i as int),
        decreases more.len() - i,
    {
        out.push(more[i]);
        assert((before + more@.take(i as int)).push(more@[i as int]) =~= before + more@.take(
            i + 1,
        ));
        i += 1;
    }
    assert(more@.take(more@.len() as int) =~= more@);
}

fn make_content(fit: &Fit, text: &str) -> (r: Vec<u8>)
    ensures
        r@ == line_content(fit@, text@),
{
    let mut head = "BT /Helv ".to_owned();
    head.append(fit.size.as_str());
    head.append(" Tf 0 g 2 ");
    head.append(fit.base.as_str());
    head.append(" Td (");
    let mut out = to_bytes(head.as_str());
    let body = escape_pdf_text(text);
    push_bytes(&mut out, body.as_slice());
    push_bytes(&mut out, ") Tj ET".as_bytes());
    out
}

fn one_entry(key: &str, value: Obj) -> (r: Obj)
    ensures
        r@ == Val::Dict(dict_set(seq![], key@, value@)),
{
    let mut d: Vec<(Vec<u8>, Obj)> = Vec::new();
    proof {
        lemma_no_entries();
    }
    put_entry(&mut d, key, value);
    Obj::Dict(d)
}

fn make_line(fit: &Fit, text: &str, font: ObjId) -> (r: Obj)
    ensures
        r@ == line_object(fit@, text@, font),
{
    let content = make_content(fit, text);
    let fonts = one_entry("Helv", Obj::Ref(font));
    let res = one_entry("Font", fonts);
    let mut d: Vec<(Vec<u8>, Obj)> = Vec::new();
    proof {
        lemma_no_entries();
    }
    put_entry(&mut d, "Type", name_obj("XObject"));
    put_entry(&mut d, "Subtype", name_obj("Form"));
    let corners = vec![
        Obj::Int(0),
        Obj::Int(0),
        Obj::Real(fit.width.clone()),
        Obj::Real(fit.height.clone()),
    ];
    proof {
        crate::pdf::lemma_vals(corners@);
        assert(crate::pdf::vals(corners@) =~= seq![
            Val::Int(0),
            Val::Int(0),
            Val::Real(fit@.width),
            Val::Real(fit@.height),
        ]) by {
            assert(crate::pdf::vals(corners@)[0] == val(corners@[0]));
            assert(crate::pdf::vals(corners@)[1] == val(corners@[1]));
            assert(crate::pdf::vals(corners@)[2] == val(corners@[2]));
            assert(crate::pdf::vals(corners@)[3] == val(corners@[3]));
        }
    }
    put_entry(&mut d, "BBox", Obj::Array(corners));
    put_entry(&mut d, "Resources", res);
    let length: i64 = content.len() as i64;
    put_entry(&mut d, "Length", Obj::Int(length));
    Obj::Stream(d, content)
}

/// Makes a widget show one line of text.
fn write_text_appearance(b: &mut Bench, id: ObjId, fit: &Fit, text: &str)
    ensures
        work(*final(b)) == with_line(work(*old(b)), id, fit@, text@),
{
    if b.pdf.max_id > u32::MAX - 2 {
        return;
    }
    let font: ObjId = match b.font {
        Some(f) => f,
        None => {
            match b.pdf.add(make_font()) {
                Some(f) => {
                    b.font = Some(f);
                    f
                },
                None => {
                    return;
                },
            }
        },
    };
    let line = make_line(fit, text, font);
    if let Some(x) = b.pdf.add(line) {
        let ap = one_entry("N", Obj::Ref(x));
        if b.pdf.set_entry(id, "AP", ap) {
            b.changed = true;
        }
    }
}

// --- States ---

/// The state that a widget is in, where its appearance is a choice of states.
pub open spec fn state_at(p: PdfView, id: ObjId) -> Option<Val> {
    match as_dict(object_at(p, id)) {
        Some(d) => match dict_get(d, "AS"@) {
            Some(Val::Name(state)) => match states_at(p, d) {
                Some(states) => match key_from(states, state, 0) {
                    Some(k) => Some(states[k].1),
                    None => None,
                },
                None => None,
            },
            _ => None,
        },
        None => None,
    }
}

/// `w` with the appearance of a widget set to that of its state. A state that is
/// a stream of its own becomes an object first.
pub open spec fn with_state(w: Work, id: ObjId) -> Work {
    match state_at(w.pdf, id) {
        Some(Val::Ref(target)) => {
            let (q, ok) = entry_set(w.pdf, id, "AP"@, drawn_as(target));
            Work { pdf: q, changed: w.changed || ok, ..w }
        },
        Some(Val::Stream(d, c)) => match added(w.pdf, Val::Stream(d, c)) {
            (p, Some(target)) => {
                let (q, ok) = entry_set(p, id, "AP"@, drawn_as(target));
                Work { pdf: q, changed: w.changed || ok, ..w }
            },
            (p, None) => w,
        },
        _ => w,
    }
}

fn find_state(pdf: &Pdf, id: ObjId) -> (r: Option<Obj>)
    ensures
        r is Some == state_at(pdf@, id) is Some,
        r is Some ==> r->0@ == state_at(pdf@, id)->0,
{
    match pdf.dict_at(id) {
        Some(d) => match get(d, "AS") {
            Some(Obj::Name(state)) => match find_states(pdf, d) {
                Some(states) => match crate::pdf::find_key(states, state.as_slice()) {
                    Some(k) => {
                        proof {
                            lemma_entries(states@);
                            assert(entries(states@)[k as int] == (
                                states@[k as int].0@,
                                val(states@[k as int].1),
                            ));
                        }
                        Some(copy_obj(&states[k].1))
                    },
                    None => None,
                },
                None => None,
            },
            _ => None,
        },
        None => None,
    }
}

/// Makes a widget's appearance that of its state.
fn resolve_state_dict(b: &mut Bench, id: ObjId)
    ensures
        work(*final(b)) == with_state(work(*old(b)), id),
{
    let target: ObjId = match find_state(&b.pdf, id) {
        Some(Obj::Ref(t)) => t,
        Some(Obj::Stream(d, c)) => match b.pdf.add(Obj::Stream(d, c)) {
            Some(t) => t,
            None => {
                return;
            },
        },
        _ => {
            return;
        },
    };
    let ap = one_entry("N", Obj::Ref(target));
    if b.pdf.set_entry(id, "AP", ap) {
        b.changed = true;
    }
}

// --- Missing appearances ---

/// The text that a widget without an appearance should show.
pub open spec fn unseen_text(p: PdfView, id: ObjId) -> Option<Seq<char>> {
    match as_dict(object_at(p, id)) {
        Some(d) => if dict_get(d, "AP"@) is Some || field_value(p, d, "FT"@) != Some(name("Tx"@)) {
            None
        } else {
            match field_value(p, d, "V"@) {
                Some(Val::Str(s, _)) => if trim(decoded(s)).len() == 0 {
                    None
                } else {
                    Some(decoded(s))
                },
                _ => None,
            }
        },
        None => None,
    }
}

/// `w` with an appearance for a text widget that has none.
pub open spec fn with_text(w: Work, id: ObjId, fits: Seq<FitView>) -> Work {
    match unseen_text(w.pdf, id) {
        Some(text) => match fit_from(fits, id, 0) {
            Some(k) => with_line(w, id, fits[k], text),
            None => w,
        },
        None => w,
    }
}

fn find_unseen(pdf: &Pdf, id: ObjId) -> (r: Option<String>)
    ensures
        crate::tree::opt_view(r) == unseen_text(pdf@, id),
{
    let d = match pdf.dict_at(id) {
        Some(d) => d,
        None => {
            return None;
        },
    };
    if get(d, "AP").is_some() {
        return None;
    }
    match field_attr(pdf, d, "FT") {
        Some(Obj::Name(n)) => if !is_word(n.as_slice(), "Tx") {
            return None;
        },
        _ => {
            return None;
        },
    }
    match field_attr(pdf, d, "V") {
        Some(Obj::Str(s, _)) => {
            let text = decode_pdf_string(s.as_slice());
            let t = Text::new(text.as_str());
            let (a, b) = trim_range(t.chars.as_slice());
            if a < b {
                Some(text)
            } else {
                None
            }
        },
        _ => None,
    }
}

/// Gives a text widget that has none an appearance.
fn synthesize_text_appearance(b: &mut Bench, id: ObjId, fits: &Vec<Fit>)
    ensures
        work(*final(b)) == with_text(work(*old(b)), id, fit_views(fits@)),
{
    if let Some(text) = find_unseen(&b.pdf, id) {
        if let Some(k) = find_fit(fits, id) {
            assert(fit_views(fits@)[k as int] == fits@[k as int]@);
            write_text_appearance(b, id, &fits[k], text.as_str());
        }
    }
}

// --- Normalizing ---

/// The widgets among the first `n` objects.
pub open spec fn widgets_upto(all: Seq<(ObjId, Val)>, n: int) -> Seq<ObjId>
    decreases n,
{
    if n <= 0 || n > all.len() {
        seq![]
    } else {
        match as_dict(Some(all[n - 1].1)) {
            Some(d) => if is_widget(d) {
                widgets_upto(all, n - 1).push(all[n - 1].0)
            } else {
                widgets_upto(all, n - 1)
            },
            None => widgets_upto(all, n - 1),
        }
    }
}

fn find_widgets(pdf: &Pdf) -> (r: Vec<ObjId>)
    ensures
        r@ == widgets_upto(pdf@.objects, pdf@.objects.len() as int),
{
    let ghost all = pdf@.objects;
    let mut out: Vec<ObjId> = Vec::new();
    let mut i: usize = 0;
    while i < pdf.objects.len()
        invariant
            i <= pdf.objects@.len(),
            all == pdf@.objects,
            out@ == widgets_upto(all, i as int),
        decreases pdf.objects.len() - i,
    {
        assert(all[i as int] == (pdf.objects@[i as int].0, pdf.objects@[i as int].1@));
        if let Obj::Dict(d) = &pdf.objects[i].1 {
            if check_widget(d) {
                out.push(pdf.objects[i].0);
            }
        }
        i += 1;
    }
    out
}

/// `w` with the widgets from `i` on made to show what they hold.
pub open spec fn normal_from(w: Work, ids: Seq<ObjId>, i: int, fits: Seq<FitView>) -> Work
    decreases ids.len() - i,
{
    if i < 0 || i >= ids.len() {
        w
    } else {
        normal_from(with_text(with_state(w, ids[i]), ids[i], fits), ids, i + 1, fits)
    }
}

/// A document before any change.
pub open spec fn untouched(p: PdfView) -> Work {
    Work { pdf: p, font: None, changed: false }
}

/// A document whose widgets all show what they hold.
pub open spec fn normal_pdf(p: PdfView, fits: Seq<FitView>) -> Work {
    normal_from(untouched(p), widgets_upto(p.objects, p.objects.len() as int), 0, fits)
}

/// The changed objects of a document, from change `i` on.
pub open spec fn edits_from(p: PdfView, i: int) -> Seq<(ObjId, Val)>
    decreases p.dirty.len() - i,
{
    if i < 0 || i >= p.dirty.len() {
        seq![]
    } else {
        match object_from(p.objects, p.dirty[i], 0) {
            Some(k) => seq![p.objects[k]] + edits_from(p, i + 1),
            None => edits_from(p, i + 1),
        }
    }
}

fn collect_edits(pdf: &Pdf) -> (r: Vec<(ObjId, Obj)>)
    ensures
        object_views(r@) == edits_from(pdf@, 0),
{
    let mut out: Vec<(ObjId, Obj)> = Vec::new();
    let ghost want = edits_from(pdf@, 0);
    assert(object_views(out@) =~= seq![]);
    assert(seq![] + want =~= want);
    let mut i: usize = 0;
    while i < pdf.dirty.len()
        invariant
            i <= pdf.dirty@.len(),
            want == object_views(out@) + edits_from(pdf@, i as int),
        decreases pdf.dirty.len() - i,
    {
        let ghost before = object_views(out@);
        let id: ObjId = pdf.dirty[i];
        if let Some(k) = pdf.find(id) {
            let o = &pdf.objects[k];
            let ghost e = (o.0, o.1@);
            assert(pdf@.objects[k as int] == e);
            out.push((o.0, copy_obj(&o.1)));
            assert(object_views(out@) =~= before.push(e));
            assert(before.push(e) + edits_from(pdf@, i + 1) =~= before + (seq![e] + edits_from(
                pdf@,
                i + 1,
            )));
        }
        i += 1;
    }
    assert(object_views(out@) + Seq::<(ObjId, Val)>::empty() =~= object_views(out@));
    out
}

/// The file of a document that was changed; none where nothing was.
pub open spec fn saved(bytes: Seq<u8>, w: Work) -> Option<Seq<u8>> {
    if w.changed {
        pdf_written(bytes, edits_from(w.pdf, 0), w.pdf.max_id)
    } else {
        None
    }
}

/// Bytes as a value.
pub open spec fn opt_bytes(b: Option<Vec<u8>>) -> Option<Seq<u8>> {
    match b {
        Some(v) => Some(v@),
        None => None,
    }
}

fn save(bytes: &[u8], b: &Bench) -> (r: Option<Vec<u8>>)
    requires
        pdf_read(bytes@) is Some,
        !is_sealed(pdf_read(bytes@)->0),
    ensures
        opt_bytes(r) == saved(bytes@, work(*b)),
{
    if !b.changed {
        return None;
    }
    let edits = collect_edits(&b.pdf);
    write_pdf(bytes, &edits, b.pdf.max_id)
}

/// The file with its widgets all showing what they hold; none where there is
/// nothing to do, or the file is encrypted or no document.
pub open spec fn normal_file(bytes: Seq<u8>, fits: Seq<FitView>) -> Option<Seq<u8>> {
    match pdf_read(bytes) {
        Some(p) => if is_sealed(p) {
            None
        } else {
            saved(bytes, normal_pdf(p, fits))
        },
        None => None,
    }
}

/// Rewrites a file so that every form widget has an appearance that can be
/// drawn as it stands: states are resolved, and text fields without an
/// appearance get one. `None` where there is nothing to do, or the file is
/// encrypted or no document.
pub fn normalize_form_appearances(bytes: &[u8], fits: &Vec<Fit>) -> (r: Option<Vec<u8>>)
    ensures
        opt_bytes(r) == normal_file(bytes@, fit_views(fits@)),
{
    let pdf = match read_pdf(bytes) {
        Some(pdf) => pdf,
        None => {
            return None;
        },
    };
    if pdf.sealed() {
        return None;
    }
    let ids = find_widgets(&pdf);
    let mut b = Bench { pdf, font: None, changed: false };
    let ghost want = normal_from(work(b), ids@, 0, fit_views(fits@));
    let mut i: usize = 0;
    while i < ids.len()
        invariant
            i <= ids@.len(),
            want == normal_from(work(b), ids@, i as int, fit_views(fits@)),
        decreases ids.len() - i,
    {
        resolve_state_dict(&mut b, ids[i]);
        synthesize_text_appearance(&mut b, ids[i], fits);
        i += 1;
    }
    save(bytes, &b)
}

/// A widget, and the numbers of its rectangle.
#[derive(PartialEq, Eq, Debug)]
pub struct WidgetRect {
    pub widget: ObjId,
    pub rect: Vec<Num<String>>,
}

/// The rectangles of the widgets among the first `n` objects.
pub open spec fn rects_upto(p: PdfView, n: int) -> Seq<(ObjId, Seq<Num<Seq<char>>>)>
    decreases n,
{
    if n <= 0 || n > p.objects.len() {
        seq![]
    } else {
        match as_dict(Some(p.objects[n - 1].1)) {
            Some(d) => if is_widget(d) && rect_at(p, d) is Some {
                rects_upto(p, n - 1).push((p.objects[n - 1].0, rect_at(p, d)->0))
            } else {
                rects_upto(p, n - 1)
            },
            None => rects_upto(p, n - 1),
        }
    }
}

/// Widget rectangles as values.
pub open spec fn rect_views(v: Seq<WidgetRect>) -> Seq<(ObjId, Seq<Num<Seq<char>>>)> {
    v.map_values(|w: WidgetRect| (w.widget, num_views(w.rect@)))
}

/// The rectangle of every widget of a file: what a [`Fit`] is measured from. An
/// encrypted file has none.
pub fn widget_rects(bytes: &[u8]) -> (r: Vec<WidgetRect>)
    ensures
        rect_views(r@) == match pdf_read(bytes@) {
            Some(p) => if is_sealed(p) {
                seq![]
            } else {
                rects_upto(p, p.objects.len() as int)
            },
            None => seq![],
        },
{
    let mut out: Vec<WidgetRect> = Vec::new();
    assert(rect_views(out@) =~= seq![]);
    if let Some(pdf) = read_pdf(bytes) {
        if pdf.sealed() {
            return out;
        }
        let ghost all = pdf@.objects;
        let mut i: usize = 0;
        while i < pdf.objects.len()
            invariant
                i <= pdf.objects@.len(),
                all == pdf@.objects,
                rect_views(out@) == rects_upto(pdf@, i as int),
            decreases pdf.objects.len() - i,
        {
            let ghost before = rect_views(out@);
            assert(all[i as int] == (pdf.objects@[i as int].0, pdf.objects@[i as int].1@));
            if let Obj::Dict(d) = &pdf.objects[i].1 {
                if check_widget(d) {
                    if let Some(rect) = rect_numbers(&pdf, d) {
                        let ghost e = (pdf.objects@[i as int].0, num_views(rect@));
                        out.push(WidgetRect { widget: pdf.objects[i].0, rect });
                        assert(rect_views(out@) =~= before.push(e));
                    }
                }
            }
            i += 1;
        }
    }
    out
}

// --- Setting a value ---

/// The dictionary that owns a widget's field: the nearest, up the `/Parent`
/// references, that has a field type.
pub open spec fn owner_of(p: PdfView, id: ObjId, left: nat) -> ObjId
    decreases left,
{
    if left == 0 {
        id
    } else {
        match as_dict(object_at(p, id)) {
            Some(d) => if dict_get(d, "FT"@) is Some {
                id
            } else {
                match dict_get(d, "Parent"@) {
                    Some(Val::Ref(up)) => owner_of(p, up, (left - 1) as nat),
                    _ => id,
                }
            },
            None => id,
        }
    }
}

/// `p` with the value of a widget's field set where the field keeps it.
pub open spec fn with_value(p: PdfView, id: ObjId, v: Val) -> PdfView {
    entry_set(p, owner_of(p, id, PARENT_LIMIT as nat), "V"@, v).0
}

fn find_owner(pdf: &Pdf, id: ObjId, left: usize) -> (r: ObjId)
    ensures
        r == owner_of(pdf@, id, left as nat),
    decreases left,
{
    if left == 0 {
        return id;
    }
    match pdf.dict_at(id) {
        Some(d) => if get(d, "FT").is_some() {
            id
        } else {
            match get(d, "Parent") {
                Some(Obj::Ref(up)) => find_owner(pdf, *up, left - 1),
                _ => id,
            }
        },
        None => id,
    }
}

fn set_value_object(pdf: &mut Pdf, id: ObjId, v: Obj)
    ensures
        final(pdf)@ == with_value(old(pdf)@, id, v@),
{
    let owner: ObjId = find_owner(pdf, id, PARENT_LIMIT);
    let _ = pdf.set_entry(owner, "V", v);
}

/// The widgets of a field among the first `n` objects.
pub open spec fn named_upto(p: PdfView, field: Seq<char>, n: int) -> Seq<ObjId>
    decreases n,
{
    if n <= 0 || n > p.objects.len() {
        seq![]
    } else {
        match as_dict(Some(p.objects[n - 1].1)) {
            Some(d) => if is_widget(d) && full_name(p, d) == Some(field) {
                named_upto(p, field, n - 1).push(p.objects[n - 1].0)
            } else {
                named_upto(p, field, n - 1)
            },
            None => named_upto(p, field, n - 1),
        }
    }
}

fn find_named(pdf: &Pdf, field: &str) -> (r: Vec<ObjId>)
    ensures
        r@ == named_upto(pdf@, field@, pdf@.objects.len() as int),
{
    let ghost all = pdf@.objects;
    let wanted = field.to_owned();
    let mut out: Vec<ObjId> = Vec::new();
    let mut i: usize = 0;
    while i < pdf.objects.len()
        invariant
            i <= pdf.objects@.len(),
            all == pdf@.objects,
            wanted@ == field@,
            out@ == named_upto(pdf@, field@, i as int),
        decreases pdf.objects.len() - i,
    {
        assert(all[i as int] == (pdf.objects@[i as int].0, pdf.objects@[i as int].1@));
        if let Obj::Dict(d) = &pdf.objects[i].1 {
            if check_widget(d) {
                if let Some(n) = qualified_name(pdf, d) {
                    if n == wanted {
                        out.push(pdf.objects[i].0);
                    }
                }
            }
        }
        i += 1;
    }
    out
}

/// The state that a switch shows for a value: the value where it can show it,
/// else `Off`.
pub open spec fn switch_state(p: PdfView, d: Seq<(Seq<u8>, Val)>, value: Seq<char>) -> Seq<char> {
    match states_at(p, d) {
        Some(states) => if key_from(states, bytes_of(value), 0) is Some {
            value
        } else {
            "Off"@
        },
        None => "Off"@,
    }
}

/// `w` with one widget of a field set. Signatures and read-only fields stay.
pub open spec fn with_set(w: Work, id: ObjId, value: Seq<char>, fits: Seq<FitView>) -> Work {
    match as_dict(object_at(w.pdf, id)) {
        Some(d) => match kind_at(w.pdf, d) {
            Some(kind) => if kind == FieldKind::Signature || is_read_only(flags_of(w.pdf, d)) {
                w
            } else if is_switch(kind) {
                let p = with_value(w.pdf, id, name(value));
                let (q, ok) = entry_set(p, id, "AS"@, name(switch_state(w.pdf, d, value)));
                Work { pdf: q, changed: w.changed || ok, ..w }
            } else {
                match fit_from(fits, id, 0) {
                    Some(k) => {
                        let p = with_value(w.pdf, id, Val::Str(text_string(value), false));
                        with_line(Work { pdf: p, ..w }, id, fits[k], value)
                    },
                    None => w,
                }
            },
            None => w,
        },
        None => w,
    }
}

/// `w` with the widgets from `i` on set.
pub open spec fn set_from(
    w: Work,
    ids: Seq<ObjId>,
    i: int,
    value: Seq<char>,
    fits: Seq<FitView>,
) -> Work
    decreases ids.len() - i,
{
    if i < 0 || i >= ids.len() {
        w
    } else {
        set_from(with_set(w, ids[i], value, fits), ids, i + 1, value, fits)
    }
}

/// A document with the value of a field set.
pub open spec fn set_pdf(
    p: PdfView,
    field: Seq<char>,
    value: Seq<char>,
    fits: Seq<FitView>,
) -> Work {
    set_from(untouched(p), named_upto(p, field, p.objects.len() as int), 0, value, fits)
}

fn find_switch(pdf: &Pdf, d: &Vec<(Vec<u8>, Obj)>, value: &str) -> (r: Obj)
    ensures
        r@ == name(switch_state(pdf@, entries(d@), value@)),
{
    if let Some(states) = find_states(pdf, d) {
        if has_bytes(states, value.as_bytes()) {
            return name_obj(value);
        }
    }
    name_obj("Off")
}

fn set_widget(b: &mut Bench, id: ObjId, value: &str, fits: &Vec<Fit>)
    ensures
        work(*final(b)) == with_set(work(*old(b)), id, value@, fit_views(fits@)),
{
    let d = match b.pdf.dict_at(id) {
        Some(d) => d,
        None => {
            return;
        },
    };
    let kind = match kind_of(&b.pdf, d) {
        Some(k) => k,
        None => {
            return;
        },
    };
    let flags: i64 = find_flags(&b.pdf, d);
    if kind == FieldKind::Signature || flags & 1 != 0 {
        return;
    }
    if kind == FieldKind::Checkbox || kind == FieldKind::Radio {
        let state = find_switch(&b.pdf, d, value);
        set_value_object(&mut b.pdf, id, name_obj(value));
        if b.pdf.set_entry(id, "AS", state) {
            b.changed = true;
        }
    } else if let Some(k) = find_fit(fits, id) {
        assert(fit_views(fits@)[k as int] == fits@[k as int]@);
        set_value_object(&mut b.pdf, id, Obj::Str(encode_pdf_string(value), false));
        write_text_appearance(b, id, &fits[k], value);
    }
}

/// The file with the value of a field set; none where nothing was, or the file is
/// encrypted or no document.
pub open spec fn set_file(
    bytes: Seq<u8>,
    field: Seq<char>,
    value: Seq<char>,
    fits: Seq<FitView>,
) -> Option<Seq<u8>> {
    match pdf_read(bytes) {
        Some(p) => if is_sealed(p) {
            None
        } else {
            saved(bytes, set_pdf(p, field, value, fits))
        },
        None => None,
    }
}

/// Sets the value of a field, by its full name, and renews its appearance. For
/// a text or choice field pass the text; for a checkbox or radio button one of
/// its options, or `Off`. `None` where nothing matched: an unknown, read-only
/// or signature field, or a file that is encrypted or no document.
pub fn set_form_value(bytes: &[u8], field: &str, value: &str, fits: &Vec<Fit>) -> (r: Option<
    Vec<u8>,
>)
    ensures
        opt_bytes(r) == set_file(bytes@, field@, value@, fit_views(fits@)),
{
    let pdf = match read_pdf(bytes) {
        Some(pdf) => pdf,
        None => {
            return None;
        },
    };
    if pdf.sealed() {
        return None;
    }
    let ids = find_named(&pdf, field);
    let mut b = Bench { pdf, font: None, changed: false };
    let ghost want = set_from(work(b), ids@, 0, value@, fit_views(fits@));
    let mut i: usize = 0;
    while i < ids.len()
        invariant
            i <= ids@.len(),
            want == set_from(work(b), ids@, i as int, value@, fit_views(fits@)),
        decreases ids.len() - i,
    {
        set_widget(&mut b, ids[i], value, fits);
        i += 1;
    }
    save(bytes, &b)
}

} // verus!
