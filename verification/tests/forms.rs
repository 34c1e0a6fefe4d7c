use inkpage::form_edits::{normalize_form_appearances, set_form_value, widget_rects, Fit};
use inkpage::forms::{form_fields, FieldKind, FormField, Num};
use inkpage::pdf_text::{decode_pdf_string, encode_pdf_string};
use lopdf::{Dictionary, Document, EncryptionState, EncryptionVersion, Object, Permissions, Stream};

fn dict(entries: Vec<(&str, Object)>) -> Dictionary {
    let mut d = Dictionary::new();
    for (key, value) in entries {
        d.set(key, value);
    }
    d
}

fn rect(corners: [i64; 4]) -> Object {
    Object::Array(corners.iter().map(|n| Object::Integer(*n)).collect())
}

fn text(s: &str) -> Object {
    Object::string_literal(s)
}

/// A form of a drawing, 40 by 40.
fn drawing(content: &[u8]) -> Stream {
    Stream::new(
        dict(vec![
            ("Type", "XObject".into()),
            ("Subtype", "Form".into()),
            ("BBox", rect([0, 0, 40, 40])),
        ]),
        content.to_vec(),
    )
}

/// A 420×420 one-page PDF with three widgets: a checked checkbox whose `/AP /N`
/// is a state dict, a merged text field with `/V` but no `/AP`, and a split
/// parent-field/kid-widget pair.
fn build_test_pdf() -> Vec<u8> {
    let mut doc = Document::with_version("1.7");
    let on = doc.add_object(drawing(
        b"0 0.6 0 RG 3 w 1 1 38 38 re S 0 0.6 0 rg 8 8 24 24 re f",
    ));
    let off = doc.add_object(drawing(b"1 w 0.5 0.5 39 39 re S"));
    let states = dict(vec![("Yes", on.into()), ("Off", off.into())]);
    let checkbox = doc.add_object(dict(vec![
        ("Type", "Annot".into()),
        ("Subtype", "Widget".into()),
        ("FT", "Btn".into()),
        ("T", text("check1")),
        ("V", "Yes".into()),
        ("AS", "Yes".into()),
        ("Rect", rect([20, 140, 60, 180])),
        ("F", 4i64.into()),
        ("AP", dict(vec![("N", states.into())]).into()),
    ]));
    let merged = doc.add_object(dict(vec![
        ("Type", "Annot".into()),
        ("Subtype", "Widget".into()),
        ("FT", "Tx".into()),
        ("T", text("name1")),
        ("V", text("Merged value")),
        ("Rect", rect([20, 60, 220, 100])),
        ("F", 4i64.into()),
    ]));
    // Split pair: the widget kid carries no /FT or /V of its own.
    let kid = doc.new_object_id();
    let parent = doc.add_object(dict(vec![
        ("FT", "Tx".into()),
        ("T", text("name2")),
        ("V", text("Inherited value")),
        ("Kids", vec![Object::Reference(kid)].into()),
    ]));
    doc.objects.insert(
        kid,
        Object::Dictionary(dict(vec![
            ("Type", "Annot".into()),
            ("Subtype", "Widget".into()),
            ("Rect", rect([20, 200, 220, 240])),
            ("F", 4i64.into()),
            ("Parent", parent.into()),
        ])),
    );
    let page = doc.new_object_id();
    let pages = doc.add_object(dict(vec![
        ("Type", "Pages".into()),
        ("Kids", vec![Object::Reference(page)].into()),
        ("Count", 1i64.into()),
    ]));
    doc.objects.insert(
        page,
        Object::Dictionary(dict(vec![
            ("Type", "Page".into()),
            ("Parent", pages.into()),
            ("MediaBox", rect([0, 0, 420, 420])),
            (
                "Annots",
                vec![
                    Object::Reference(checkbox),
                    Object::Reference(merged),
                    Object::Reference(kid),
                ]
                .into(),
            ),
        ])),
    );
    let form = dict(vec![
        (
            "Fields",
            vec![
                Object::Reference(checkbox),
                Object::Reference(merged),
                Object::Reference(parent),
            ]
            .into(),
        ),
        ("NeedAppearances", true.into()),
    ]);
    let catalog = doc.add_object(dict(vec![
        ("Type", "Catalog".into()),
        ("Pages", pages.into()),
        ("AcroForm", form.into()),
    ]));
    doc.trailer.set("Root", catalog);
    let mut out = Vec::new();
    doc.save_to(&mut out).unwrap();
    out
}

fn number(n: &Num<String>) -> f32 {
    match n {
        Num::Int(i) => *i as f32,
        Num::Real(t) => t.parse().unwrap(),
    }
}

/// How a line of text fits into each widget of a file.
fn fits(bytes: &[u8]) -> Vec<Fit> {
    let mut out = vec![];
    for w in widget_rects(bytes) {
        let c: Vec<f32> = w.rect.iter().map(number).collect();
        let (width, height) = ((c[2] - c[0]).abs(), (c[3] - c[1]).abs());
        let size = (height - 4.0).clamp(6.0, 12.0);
        let base = (height - size) / 2.0 + size * 0.18;
        out.push(Fit {
            widget: w.widget,
            width: format!("{width}"),
            height: format!("{height}"),
            size: format!("{size:.1}"),
            base: format!("{base:.1}"),
        });
    }
    out
}

fn normalized(bytes: &[u8]) -> Option<Vec<u8>> {
    normalize_form_appearances(bytes, &fits(bytes))
}

fn with_value(bytes: &[u8], field: &str, value: &str) -> Option<Vec<u8>> {
    set_form_value(bytes, field, value, &fits(bytes))
}

fn deref<'a>(doc: &'a Document, mut o: &'a Object) -> &'a Object {
    while let Object::Reference(id) = o {
        o = doc.get_object(*id).unwrap();
    }
    o
}

/// The name of the field that a widget belongs to.
fn title_of(doc: &Document, widget: &Dictionary) -> Option<Vec<u8>> {
    let mut d = widget.clone();
    loop {
        if let Ok(t) = d.get(b"T") {
            return deref(doc, t).as_str().ok().map(|t| t.to_vec());
        }
        d = deref(doc, d.get(b"Parent").ok()?).as_dict().ok()?.clone();
    }
}

/// The `/AP /N` of `title`'s widget, after reloading `bytes`.
fn widget_n(bytes: &[u8], title: &str) -> Object {
    let doc = Document::load_mem(bytes).unwrap();
    for obj in doc.objects.values() {
        if let Ok(d) = obj.as_dict() {
            if d.get(b"Subtype").and_then(|o| o.as_name()).ok() == Some(b"Widget".as_slice())
                && title_of(&doc, d).as_deref() == Some(title.as_bytes())
            {
                let ap = deref(&doc, d.get(b"AP").expect("has AP"));
                return deref(&doc, ap.as_dict().unwrap().get(b"N").unwrap()).clone();
            }
        }
    }
    panic!("widget {title} not found");
}

fn named<'a>(fields: &'a [FormField], name: &str) -> &'a FormField {
    fields.iter().find(|f| f.name == name).unwrap()
}

fn value_of(bytes: &[u8], name: &str) -> String {
    named(&form_fields(bytes), name).value.clone()
}

fn corners(f: &FormField) -> Vec<f32> {
    f.rect.iter().map(number).collect()
}

#[test]
fn state_dicts_resolve_and_missing_appearances_synthesize() {
    let fixed = normalized(&build_test_pdf()).expect("changes made");

    // The checkbox's /N is now the /AS-selected stream, not a dict.
    let n = widget_n(&fixed, "check1");
    let stream = n.as_stream().expect("direct stream");
    assert!(String::from_utf8_lossy(&stream.content).contains("re S"));

    // Both text fields (merged + split/inherited) gained a synthesized
    // appearance showing their value.
    for (title, value) in [("name1", "Merged value"), ("name2", "Inherited value")] {
        let n = widget_n(&fixed, title);
        let stream = n.as_stream().expect("synthesized stream");
        let content = String::from_utf8_lossy(&stream.content);
        assert!(content.contains(value), "{title}: {content}");
        assert!(content.contains("/Helv"));
    }

    // Idempotent: a second pass finds nothing left to fix.
    assert!(normalized(&fixed).is_none());
}

#[test]
fn fields_enumerate_with_kinds_and_values() {
    let fields = form_fields(&build_test_pdf());
    assert_eq!(fields.len(), 3);

    let cb = named(&fields, "check1");
    assert_eq!(cb.kind, FieldKind::Checkbox);
    assert_eq!(cb.value, "Yes");
    assert_eq!(cb.options, vec!["Yes".to_string()]);
    assert_eq!(cb.page, 0);
    assert_eq!(corners(cb), vec![20.0, 140.0, 60.0, 180.0]);

    let merged = named(&fields, "name1");
    assert_eq!(merged.kind, FieldKind::Text);
    assert_eq!(merged.value, "Merged value");
    assert!(!merged.read_only);

    // The split pair reports under the parent's name with the kid's rect.
    let split = named(&fields, "name2");
    assert_eq!(split.value, "Inherited value");
    assert_eq!(corners(split), vec![20.0, 200.0, 220.0, 240.0]);
}

#[test]
fn set_form_value_writes_and_renders_everywhere() {
    let bytes = build_test_pdf();

    // Text: new value lands in /V and in a regenerated appearance.
    let out = with_value(&bytes, "name1", "Rewritten").expect("text write");
    let n = widget_n(&out, "name1");
    let content = String::from_utf8_lossy(&n.as_stream().unwrap().content).into_owned();
    assert!(content.contains("Rewritten"), "{content}");
    assert_eq!(value_of(&out, "name1"), "Rewritten");

    // Checkbox: turning it Off flips /V + /AS; back on restores them.
    let out = with_value(&bytes, "check1", "Off").expect("uncheck");
    assert_eq!(value_of(&out, "check1"), "Off");
    let out = with_value(&out, "check1", "Yes").expect("recheck");
    assert_eq!(value_of(&out, "check1"), "Yes");

    // The split field writes /V on the PARENT (so siblings agree) and the
    // appearance on the widget.
    let out = with_value(&bytes, "name2", "Via parent").expect("split write");
    assert_eq!(value_of(&out, "name2"), "Via parent");

    // Unknown field → None.
    assert!(with_value(&bytes, "nope", "x").is_none());
}

#[test]
fn untouched_documents_return_none() {
    // No widgets at all → None (a minimal empty document).
    let mut doc = Document::with_version("1.7");
    let pages = doc.add_object(dict(vec![
        ("Type", "Pages".into()),
        ("Kids", Vec::<Object>::new().into()),
        ("Count", 0i64.into()),
    ]));
    let catalog = doc.add_object(dict(vec![
        ("Type", "Catalog".into()),
        ("Pages", pages.into()),
    ]));
    doc.trailer.set("Root", catalog);
    let mut bytes = Vec::new();
    doc.save_to(&mut bytes).unwrap();
    assert!(normalized(&bytes).is_none());
    // Garbage in → None, never a panic.
    assert!(normalized(b"not a pdf").is_none());
}

#[test]
fn drawn_text_is_the_whole_stream() {
    // 200 by 40: letters of 12, their base line at 14 + 2.16.
    let out = with_value(&build_test_pdf(), "name1", "a(b)\\c\nd").expect("text write");
    let n = widget_n(&out, "name1");
    assert_eq!(
        n.as_stream().unwrap().content,
        b"BT /Helv 12.0 Tf 0 g 2 16.2 Td (a\\(b\\)\\\\c d) Tj ET".to_vec()
    );
    // The field still reads as it was set.
    assert_eq!(value_of(&out, "name1"), "a(b)\\c\nd");
}

#[test]
fn a_state_that_is_not_offered_switches_off() {
    let bytes = build_test_pdf();
    let out = with_value(&bytes, "check1", "Maybe").expect("write");
    // The field holds what was asked for; the widget shows its off state.
    assert_eq!(value_of(&out, "check1"), "Maybe");
    let doc = Document::load_mem(&out).unwrap();
    let shown = doc.objects.values().find_map(|o| o.as_dict().ok()?.get(b"AS").ok());
    assert_eq!(shown.unwrap().as_name().unwrap(), b"Off");
}

#[test]
fn read_only_fields_are_not_written() {
    let mut doc = Document::load_mem(&build_test_pdf()).unwrap();
    for obj in doc.objects.values_mut() {
        if let Ok(d) = obj.as_dict_mut() {
            if d.has(b"T") {
                d.set("Ff", 1i64);
            }
        }
    }
    let mut bytes = Vec::new();
    doc.save_to(&mut bytes).unwrap();
    assert!(form_fields(&bytes).iter().all(|f| f.read_only));
    assert!(with_value(&bytes, "name1", "Rewritten").is_none());
}

#[test]
fn no_document_has_no_fields() {
    assert!(form_fields(b"not a pdf").is_empty());
    assert!(widget_rects(b"not a pdf").is_empty());
    assert!(with_value(b"not a pdf", "name1", "x").is_none());
}

/// The test file with another value in the merged text field.
fn holding(value: Object) -> Vec<u8> {
    let mut doc = Document::load_mem(&build_test_pdf()).unwrap();
    for obj in doc.objects.values_mut() {
        if let Ok(d) = obj.as_dict_mut() {
            if d.get(b"T").and_then(|t| t.as_str()).ok() == Some(b"name1".as_slice()) {
                d.set("V", value.clone());
            }
        }
    }
    let mut bytes = Vec::new();
    doc.save_to(&mut bytes).unwrap();
    bytes
}

#[test]
fn values_are_read_in_either_encoding() {
    // Latin-1, byte by byte.
    let latin = holding(Object::string_literal(vec![b'd', 0xe9, b'j', 0xe0]));
    assert_eq!(value_of(&latin, "name1"), "déjà");
    // UTF-16BE behind its mark, with a pair of surrogates and a lone one.
    let wide: Vec<u8> = vec![
        0xfe, 0xff, 0x4e, 0x2d, 0xd8, 0x3d, 0xde, 0x00, 0xd8, 0x00, 0x00, 0x41,
    ];
    let wide = holding(Object::string_literal(wide));
    assert_eq!(value_of(&wide, "name1"), "中😀\u{fffd}A");
}

#[test]
fn states_with_broken_names_are_mended() {
    let mut doc = Document::load_mem(&build_test_pdf()).unwrap();
    for obj in doc.objects.values_mut() {
        if let Ok(d) = obj.as_dict_mut() {
            if d.get(b"T").and_then(|t| t.as_str()).ok() == Some(b"check1".as_slice()) {
                d.set("V", Object::Name(vec![b'a', 0xff, b'b']));
            }
        }
    }
    let mut bytes = Vec::new();
    doc.save_to(&mut bytes).unwrap();
    assert_eq!(value_of(&bytes, "check1"), "a\u{fffd}b");
}

/// A file with one radio group of two buttons.
fn radio_pdf() -> Vec<u8> {
    let mut doc = Document::with_version("1.7");
    let dot = doc.add_object(drawing(b"8 8 24 24 re f"));
    let off = doc.add_object(drawing(b"1 w 0.5 0.5 39 39 re S"));
    let (first, second) = (doc.new_object_id(), doc.new_object_id());
    let group = doc.add_object(dict(vec![
        ("FT", "Btn".into()),
        ("Ff", 0x8000i64.into()),
        ("T", text("choice")),
        ("V", "A".into()),
        (
            "Kids",
            vec![Object::Reference(first), Object::Reference(second)].into(),
        ),
    ]));
    for (id, state, shown) in [(first, "A", "A"), (second, "B", "Off")] {
        let states = dict(vec![(state, dot.into()), ("Off", off.into())]);
        doc.objects.insert(
            id,
            Object::Dictionary(dict(vec![
                ("Subtype", "Widget".into()),
                ("Parent", group.into()),
                ("AS", shown.into()),
                ("Rect", rect([0, 0, 40, 40])),
                ("AP", dict(vec![("N", states.into())]).into()),
            ])),
        );
    }
    let page = doc.new_object_id();
    let pages = doc.add_object(dict(vec![
        ("Type", "Pages".into()),
        ("Kids", vec![Object::Reference(page)].into()),
        ("Count", 1i64.into()),
    ]));
    doc.objects.insert(
        page,
        Object::Dictionary(dict(vec![
            ("Type", "Page".into()),
            ("Parent", pages.into()),
            (
                "Annots",
                vec![Object::Reference(first), Object::Reference(second)].into(),
            ),
        ])),
    );
    let catalog = doc.add_object(dict(vec![
        ("Type", "Catalog".into()),
        ("Pages", pages.into()),
    ]));
    doc.trailer.set("Root", catalog);
    let mut out = Vec::new();
    doc.save_to(&mut out).unwrap();
    out
}

#[test]
fn every_button_of_a_group_reads_what_was_chosen() {
    let bytes = radio_pdf();
    let fields = form_fields(&bytes);
    assert_eq!(fields.len(), 2);
    assert!(fields.iter().all(|f| f.kind == FieldKind::Radio && f.value == "A"));
    let out = with_value(&bytes, "choice", "B").unwrap();
    assert!(form_fields(&out).iter().all(|f| f.value == "B"));
    // One button shows its state, the other is off.
    let doc = Document::load_mem(&out).unwrap();
    let mut shown: Vec<Vec<u8>> = doc
        .objects
        .values()
        .filter_map(|o| Some(o.as_dict().ok()?.get(b"AS").ok()?.as_name().ok()?.to_vec()))
        .collect();
    shown.sort();
    assert_eq!(shown, vec![b"B".to_vec(), b"Off".to_vec()]);
    // Normalized, nothing is left to do.
    let fixed = normalized(&out).unwrap();
    assert!(normalized(&fixed).is_none());
}

#[test]
fn setting_a_field_keeps_the_list() {
    let cases = [
        (build_test_pdf(), "name1", "Rewritten"),
        (build_test_pdf(), "name2", "Via parent"),
        (build_test_pdf(), "check1", "Off"),
        (radio_pdf(), "choice", "B"),
    ];
    for (bytes, field, value) in cases {
        let before = form_fields(&bytes);
        let after = form_fields(&with_value(&bytes, field, value).unwrap());
        assert_eq!(after.len(), before.len());
        for (b, a) in before.iter().zip(&after) {
            assert_eq!((&a.name, &a.kind, a.page, a.read_only), (&b.name, &b.kind, b.page, b.read_only));
            assert_eq!(corners(a), corners(b));
            let expected = if b.name == field { value } else { b.value.as_str() };
            assert_eq!(a.value, expected);
        }
    }
}

#[test]
fn every_text_reads_back() {
    let pdf = build_test_pdf();
    for value in ["plain (text)", "déjà vu", "č", "中😀", "سلام"] {
        let out = with_value(&pdf, "name1", value).unwrap();
        assert_eq!(value_of(&out, "name1"), value);
        let out = with_value(&pdf, "name2", value).unwrap();
        assert_eq!(value_of(&out, "name2"), value);
    }
}

#[test]
fn text_strings_are_ascii_or_marked() {
    assert_eq!(encode_pdf_string("a(b"), b"a(b");
    assert_eq!(encode_pdf_string("é"), [0xfe, 0xff, 0x00, 0xe9]);
    assert_eq!(encode_pdf_string("😀"), [0xfe, 0xff, 0xd8, 0x3d, 0xde, 0x00]);
    assert_eq!(decode_pdf_string(&encode_pdf_string("a😀é")), "a😀é");
}

/// The test file, encrypted.
fn encrypted(user_password: &str) -> Vec<u8> {
    let mut doc = Document::load_mem(&build_test_pdf()).unwrap();
    let id = Object::string_literal("0123456789abcdef");
    doc.trailer.set("ID", vec![id.clone(), id]);
    let state = EncryptionState::try_from(EncryptionVersion::V1 {
        document: &doc,
        owner_password: "owner",
        user_password,
        permissions: Permissions::all(),
    })
    .unwrap();
    doc.encrypt(&state).unwrap();
    let mut bytes = Vec::new();
    doc.save_to(&mut bytes).unwrap();
    bytes
}

#[test]
fn encrypted_files_are_left_alone() {
    for password in ["secret", ""] {
        let pdf = encrypted(password);
        assert!(Document::load_mem(&pdf).is_ok());
        assert!(form_fields(&pdf).is_empty());
        assert!(widget_rects(&pdf).is_empty());
        let fits = fits(&build_test_pdf());
        assert!(normalize_form_appearances(&pdf, &fits).is_none());
        assert!(set_form_value(&pdf, "name1", "x", &fits).is_none());
    }
}
