//! What holds of the list of fields: which widgets are in it, and what it says
//! of each.
use crate::forms::{
    annots_at, annots_upto, attr, choices_upto, described, dotted, field_value, fields_upto,
    flags_of, full_name, kind_at, names_up, option_text, options_at, rect_at, states_at,
    states_upto, utf8_lossy, FieldKind, FieldView, Num, PARENT_LIMIT,
};
use crate::pdf::{bytes_of, dict_get, dict_in, object_at, resolved, PdfView, Val};
use crate::pdf_text::decoded;
use vstd::prelude::*;
use vstd::utf8::{is_ascii_chars, is_ascii_chars_encode_utf8};

verus! {

// --- Names ---

/// What an entry of a dictionary leads to.
pub open spec fn entry(p: PdfView, d: Seq<(Seq<u8>, Val)>, key: Seq<char>) -> Option<Val> {
    match dict_get(d, key) {
        Some(v) => resolved(p, v),
        None => None,
    }
}

/// Whether the parents of a dictionary end within `n` steps.
pub open spec fn ends_within(p: PdfView, d: Seq<(Seq<u8>, Val)>, n: nat) -> bool
    decreases n,
{
    match entry(p, d, "Parent"@) {
        Some(Val::Dict(up)) => n > 0 && ends_within(p, up, (n - 1) as nat),
        _ => true,
    }
}

proof fn lemma_enough(
    p: PdfView,
    d: Seq<(Seq<u8>, Val)>,
    parts: Seq<Seq<char>>,
    n: nat,
    left: nat,
    more: nat,
)
    requires
        ends_within(p, d, n),
        n < left,
        n < more,
    ensures
        names_up(p, d, parts, left) == names_up(p, d, parts, more),
    decreases n,
{
    if let Some(Val::Dict(up)) = entry(p, d, "Parent"@) {
        let own = entry(p, d, "T"@);
        let next = match own {
            Some(Val::Str(s, _)) => parts.push(decoded(s)),
            _ => parts,
        };
        lemma_enough(p, up, next, (n - 1) as nat, (left - 1) as nat, (more - 1) as nat);
    }
}

proof fn lemma_names_behind(
    p: PdfView,
    d: Seq<(Seq<u8>, Val)>,
    first: Seq<Seq<char>>,
    parts: Seq<Seq<char>>,
    left: nat,
)
    ensures
        names_up(p, d, first + parts, left) == (match names_up(p, d, parts, left) {
            Some(all) => Some(first + all),
            None => None,
        }),
    decreases left,
{
    if left > 0 {
        let own = entry(p, d, "T"@);
        let next = match own {
            Some(Val::Str(s, _)) => parts.push(decoded(s)),
            _ => parts,
        };
        if let Some(Val::Str(s, _)) = own {
            assert((first + parts).push(decoded(s)) =~= first + next);
        }
        if let Some(Val::Dict(up)) = entry(p, d, "Parent"@) {
            lemma_names_behind(p, up, first, next, (left - 1) as nat);
        }
    }
}

proof fn lemma_dotted_behind(t: Seq<char>, all: Seq<Seq<char>>)
    requires
        all.len() > 0,
    ensures
        dotted(seq![t] + all) == dotted(all) + seq!['.'] + t,
    decreases all.len(),
{
    let both = seq![t] + all;
    assert(both.last() == all.last());
    if all.len() == 1 {
        assert(both.drop_last() =~= seq![t]);
        assert(dotted(seq![t]) == t);
        assert(dotted(all) == all[0]);
    } else {
        assert(both.drop_last() =~= seq![t] + all.drop_last());
        lemma_dotted_behind(t, all.drop_last());
        let rest = dotted(all.drop_last());
        assert(all.last() + seq!['.'] + (rest + seq!['.'] + t) =~= (all.last() + seq!['.'] + rest)
            + seq!['.'] + t);
    }
}

/// A field's name stands behind the full name of the field above it, parted by a
/// dot; a field without a name of its own has that of the field above; a field
/// with nothing above it is named by itself alone.
pub proof fn law_names_run_from_the_top(p: PdfView, d: Seq<(Seq<u8>, Val)>)
    requires
        ends_within(p, d, (PARENT_LIMIT - 1) as nat),
    ensures
        match (entry(p, d, "T"@), entry(p, d, "Parent"@)) {
            (Some(Val::Str(t, _)), Some(Val::Dict(up))) => names_up(
                p,
                up,
                seq![],
                PARENT_LIMIT as nat,
            ) is Some ==> full_name(p, d) == (match full_name(p, up) {
                Some(q) => Some(q + seq!['.'] + decoded(t)),
                None => Some(decoded(t)),
            }),
            (None, Some(Val::Dict(up))) => full_name(p, d) == full_name(p, up),
            (Some(Val::Str(t, _)), None) => full_name(p, d) == Some(decoded(t)),
            _ => full_name(p, d) is None,
        },
{
    let limit = PARENT_LIMIT as nat;
    let none = Seq::<Seq<char>>::empty();
    match (entry(p, d, "T"@), entry(p, d, "Parent"@)) {
        (Some(Val::Str(t, _)), Some(Val::Dict(up))) => {
            let own = seq![decoded(t)];
            assert(none.push(decoded(t)) =~= own + none);
            lemma_names_behind(p, up, own, none, (limit - 1) as nat);
            lemma_enough(p, up, none, (limit - 2) as nat, (limit - 1) as nat, limit);
            if let Some(all) = names_up(p, up, none, limit) {
                if all.len() > 0 {
                    lemma_dotted_behind(decoded(t), all);
                } else {
                    assert(own + all =~= own);
                    assert(dotted(own) == decoded(t));
                }
            }
        },
        (None, Some(Val::Dict(up))) => {
            lemma_enough(p, up, none, (limit - 2) as nat, (limit - 1) as nat, limit);
        },
        (Some(Val::Str(t, _)), None) => {
            assert(none.push(decoded(t)) =~= seq![decoded(t)]);
            assert(dotted(seq![decoded(t)]) == decoded(t));
        },
        _ => {},
    }
}

// --- Attributes ---

proof fn lemma_attr_enough(
    p: PdfView,
    d: Seq<(Seq<u8>, Val)>,
    key: Seq<char>,
    n: nat,
    left: nat,
    more: nat,
)
    requires
        ends_within(p, d, n),
        n < left,
        n < more,
    ensures
        attr(p, d, key, left) == attr(p, d, key, more),
    decreases n,
{
    if dict_get(d, key) is None {
        if let Some(up) = dict_in(p, d, "Parent"@) {
            assert(entry(p, d, "Parent"@) == Some(Val::Dict(up)));
            lemma_attr_enough(p, up, key, (n - 1) as nat, (left - 1) as nat, (more - 1) as nat);
        }
    }
}

/// A field takes an attribute that it does not have itself from the field above
/// it, and one that it has from nowhere else.
pub proof fn law_attributes_are_inherited(p: PdfView, d: Seq<(Seq<u8>, Val)>, key: Seq<char>)
    requires
        ends_within(p, d, (PARENT_LIMIT - 1) as nat),
    ensures
        match (dict_get(d, key), entry(p, d, "Parent"@)) {
            (Some(v), _) => field_value(p, d, key) == resolved(p, v),
            (None, Some(Val::Dict(up))) => field_value(p, d, key) == field_value(p, up, key),
            (None, _) => field_value(p, d, key) is None,
        },
{
    let limit = PARENT_LIMIT as nat;
    if dict_get(d, key) is None {
        if let Some(Val::Dict(up)) = entry(p, d, "Parent"@) {
            assert(dict_in(p, d, "Parent"@) == Some(up));
            lemma_attr_enough(p, up, key, (limit - 2) as nat, (limit - 1) as nat, limit);
        }
    }
}

// --- Entries ---

proof fn lemma_words_differ(a: Seq<char>, b: Seq<char>)
    requires
        is_ascii_chars(a),
        is_ascii_chars(b),
        a.len() > 0,
        b.len() > 0,
        a[0] != b[0],
    ensures
        bytes_of(a) != bytes_of(b),
{
    is_ascii_chars_encode_utf8(a);
    is_ascii_chars_encode_utf8(b);
    assert(bytes_of(a)[0] == a[0] as u8);
    assert(bytes_of(b)[0] == b[0] as u8);
}

/// What kind of field a widget is of: by the type of the field, and for buttons
/// by the flags that tell pushbuttons and radio buttons from checkboxes.
pub proof fn law_kinds_follow_the_type(p: PdfView, d: Seq<(Seq<u8>, Val)>)
    ensures
        kind_at(p, d) == Some(FieldKind::Text) <==> field_value(p, d, "FT"@) == Some(
            Val::Name(bytes_of("Tx"@)),
        ),
        kind_at(p, d) == Some(FieldKind::Choice) <==> field_value(p, d, "FT"@) == Some(
            Val::Name(bytes_of("Ch"@)),
        ),
        kind_at(p, d) == Some(FieldKind::Signature) <==> field_value(p, d, "FT"@) == Some(
            Val::Name(bytes_of("Sig"@)),
        ),
        ({
            let is_button = field_value(p, d, "FT"@) == Some(Val::Name(bytes_of("Btn"@)));
            let f: i64 = match field_value(p, d, "Ff"@) {
                Some(Val::Int(f)) => f,
                _ => 0,
            };
            &&& kind_at(p, d) == Some(FieldKind::Checkbox) <==> is_button && f & 0x10000 == 0 && f
                & 0x8000 == 0
            &&& kind_at(p, d) == Some(FieldKind::Radio) <==> is_button && f & 0x10000 == 0 && f
                & 0x8000 != 0
        }),
{
    assert(seq!['T', 'x'] =~= "Tx"@) by {
        reveal_strlit("Tx");
    }
    assert(seq!['C', 'h'] =~= "Ch"@) by {
        reveal_strlit("Ch");
    }
    assert(seq!['S', 'i', 'g'] =~= "Sig"@) by {
        reveal_strlit("Sig");
    }
    assert(seq!['B', 't', 'n'] =~= "Btn"@) by {
        reveal_strlit("Btn");
    }
    lemma_words_differ("Tx"@, "Ch"@);
    lemma_words_differ("Tx"@, "Sig"@);
    lemma_words_differ("Tx"@, "Btn"@);
    lemma_words_differ("Ch"@, "Sig"@);
    lemma_words_differ("Ch"@, "Btn"@);
    lemma_words_differ("Sig"@, "Btn"@);
}

/// What a widget's entry says: the value of the field, as text or as the state
/// that a button shows, whether it is read-only, and the corners as they stand.
pub proof fn law_an_entry_describes_its_widget(
    p: PdfView,
    d: Seq<(Seq<u8>, Val)>,
    page: int,
    f: FieldView,
)
    requires
        described(p, d, page) == Some(f),
    ensures
        Some(f.name) == full_name(p, d),
        Some(f.kind) == kind_at(p, d),
        f.page == page,
        f.read_only <==> (field_value(p, d, "Ff"@) matches Some(Val::Int(n)) && n & 1 != 0),
        f.kind == FieldKind::Text || f.kind == FieldKind::Choice || f.kind == FieldKind::Signature
            ==> f.value == (match field_value(p, d, "V"@) {
            Some(Val::Str(s, _)) => decoded(s),
            _ => Seq::<char>::empty(),
        }),
        f.kind == FieldKind::Checkbox || f.kind == FieldKind::Radio ==> f.value == (match field_value(
            p,
            d,
            "V"@,
        ) {
            Some(Val::Name(n)) => utf8_lossy(n),
            Some(_) => "Off"@,
            None => match dict_get(d, "AS"@) {
                Some(Val::Name(n)) => utf8_lossy(n),
                _ => "Off"@,
            },
        }),
        entry(p, d, "Rect"@) matches Some(Val::Array(a)) && a.len() >= 4 && f.rect.len() == 4 && forall|
            i: int,
        |
            0 <= i < 4 ==> (#[trigger] f.rect[i] == match a[i] {
                Val::Int(n) => Num::Int(n),
                Val::Real(t) => Num::Real(t),
                _ => f.rect[i],
            }) && (a[i] is Int || a[i] is Real),
        f.kind == FieldKind::Text || f.kind == FieldKind::Signature ==> f.options.len() == 0,
{
    let flags = flags_of(p, d);
    assert(0i64 & 1 == 0) by (bit_vector);
}

/// What a choice offers are the texts of its options, each in its turn.
pub proof fn law_a_choice_offers_its_options(p: PdfView, d: Seq<(Seq<u8>, Val)>, a: Seq<Val>)
    requires
        field_value(p, d, "Opt"@) == Some(Val::Array(a)),
        forall|i: int| 0 <= i < a.len() ==> option_text(p, #[trigger] a[i]) is Some,
    ensures
        ({
            let o = options_at(p, d, FieldKind::Choice);
            &&& o.len() == a.len()
            &&& forall|i: int|
                0 <= i < a.len() ==> match resolved(p, a[i]) {
                    Some(Val::Str(s, _)) => #[trigger] o[i] == decoded(s),
                    Some(Val::Array(pair)) => pair.len() > 0 && (pair[0] matches Val::Str(s, _)
                        && o[i] == decoded(s)),
                    _ => false,
                }
        }),
{
    lemma_choices(p, a, a.len() as int);
    let o = options_at(p, d, FieldKind::Choice);
    assert forall|i: int| 0 <= i < a.len() implies match resolved(p, a[i]) {
        Some(Val::Str(s, _)) => #[trigger] o[i] == decoded(s),
        Some(Val::Array(pair)) => pair.len() > 0 && (pair[0] matches Val::Str(s, _) && o[i]
            == decoded(s)),
        _ => false,
    } by {
        assert(option_text(p, a[i]) == Some(o[i]));
    }
}

proof fn lemma_choices(p: PdfView, a: Seq<Val>, n: int)
    requires
        0 <= n <= a.len(),
        forall|i: int| 0 <= i < a.len() ==> option_text(p, #[trigger] a[i]) is Some,
    ensures
        ({
            let o = choices_upto(p, a, n);
            o.len() == n && forall|i: int| 0 <= i < n ==> Some(#[trigger] o[i]) == option_text(p, a[i])
        }),
    decreases n,
{
    if n > 0 {
        lemma_choices(p, a, n - 1);
        assert(option_text(p, a[n - 1]) is Some);
    }
}

/// A button offers the states that it can be drawn in, but for `Off`.
pub proof fn law_a_button_offers_its_states(
    p: PdfView,
    d: Seq<(Seq<u8>, Val)>,
    kind: FieldKind,
    states: Seq<(Seq<u8>, Val)>,
    i: int,
)
    requires
        kind == FieldKind::Checkbox || kind == FieldKind::Radio,
        states_at(p, d) == Some(states),
        0 <= i < states.len(),
    ensures
        states[i].0 != bytes_of("Off"@) ==> options_at(p, d, kind).contains(utf8_lossy(states[i].0)),
        forall|t: Seq<char>|
            #[trigger] options_at(p, d, kind).contains(t) ==> exists|j: int|
                0 <= j < states.len() && (#[trigger] states[j]).0 != bytes_of("Off"@) && utf8_lossy(
                    states[j].0,
                ) == t,
{
    lemma_states(states, states.len() as int);
}

proof fn lemma_states(d: Seq<(Seq<u8>, Val)>, n: int)
    requires
        0 <= n <= d.len(),
    ensures
        ({
            let o = states_upto(d, n);
            &&& forall|i: int|
                0 <= i < n && (#[trigger] d[i]).0 != bytes_of("Off"@) ==> o.contains(
                    utf8_lossy(d[i].0),
                )
            &&& forall|t: Seq<char>|
                #[trigger] o.contains(t) ==> exists|j: int|
                    0 <= j < n && (#[trigger] d[j]).0 != bytes_of("Off"@) && utf8_lossy(d[j].0) == t
        }),
    decreases n,
{
    if n > 0 {
        lemma_states(d, n - 1);
        let before = states_upto(d, n - 1);
        let o = states_upto(d, n);
        if d[n - 1].0 != bytes_of("Off"@) {
            assert(o == before.push(utf8_lossy(d[n - 1].0)));
            assert(o[before.len() as int] == utf8_lossy(d[n - 1].0));
        }
        assert forall|i: int| 0 <= i < n && (#[trigger] d[i]).0 != bytes_of("Off"@) implies o.contains(
            utf8_lossy(d[i].0),
        ) by {
            if i < n - 1 {
                let j = before.index_of(utf8_lossy(d[i].0));
                assert(o[j] == utf8_lossy(d[i].0));
            }
        }
        assert forall|t: Seq<char>| #[trigger] o.contains(t) implies exists|j: int|
            0 <= j < n && (#[trigger] d[j]).0 != bytes_of("Off"@) && utf8_lossy(d[j].0) == t by {
            let k = o.index_of(t);
            if k < before.len() {
                assert(before[k] == t);
                assert(before.contains(t));
                let j = choose|j: int|
                    0 <= j < n - 1 && (#[trigger] d[j]).0 != bytes_of("Off"@) && utf8_lossy(d[j].0)
                        == t;
                assert(d[j].0 != bytes_of("Off"@));
            } else {
                assert(d[n - 1].0 != bytes_of("Off"@));
            }
        }
    }
}

// --- The list ---

/// The widget that an annotation leads to.
pub open spec fn widget_at(p: PdfView, v: Val) -> Option<Seq<(Seq<u8>, Val)>> {
    match resolved(p, v) {
        Some(Val::Dict(d)) => if dict_get(d, "Subtype"@) == Some(Val::Name(bytes_of("Widget"@))) {
            Some(d)
        } else {
            None
        },
        _ => None,
    }
}

/// Whether a widget has all that an entry takes: a kind, a name and corners.
pub open spec fn is_describable(p: PdfView, d: Seq<(Seq<u8>, Val)>) -> bool {
    kind_at(p, d) is Some && full_name(p, d) is Some && rect_at(p, d) is Some
}

proof fn lemma_annots_listed(p: PdfView, a: Seq<Val>, n: int, page: int, i: int)
    requires
        0 <= i < n <= a.len(),
        widget_at(p, a[i]) matches Some(d) && is_describable(p, d),
    ensures
        annots_upto(p, a, n, page).contains(described(p, widget_at(p, a[i])->0, page)->0),
    decreases n,
{
    let all = annots_upto(p, a, n, page);
    let before = annots_upto(p, a, n - 1, page);
    if i == n - 1 {
        assert(all == before.push(described(p, widget_at(p, a[i])->0, page)->0));
        assert(all[before.len() as int] == described(p, widget_at(p, a[i])->0, page)->0);
    } else {
        lemma_annots_listed(p, a, n - 1, page, i);
        let x = described(p, widget_at(p, a[i])->0, page)->0;
        let j = before.index_of(x);
        assert(all[j] == x);
    }
}

/// Every widget of every page that has a kind, a name and a rectangle is in the
/// list, with what describes it and the number of its page.
pub proof fn law_every_widget_is_listed(p: PdfView, n: int, k: int, a: Seq<Val>, i: int)
    requires
        0 <= k < n <= p.pages.len(),
        object_at(p, p.pages[k]) matches Some(Val::Dict(d)) && entry(p, d, "Annots"@) == Some(
            Val::Array(a),
        ),
        0 <= i < a.len(),
        widget_at(p, a[i]) matches Some(d) && is_describable(p, d),
    ensures
        fields_upto(p, n).contains(described(p, widget_at(p, a[i])->0, k)->0),
        described(p, widget_at(p, a[i])->0, k) is Some,
    decreases n,
{
    let x = described(p, widget_at(p, a[i])->0, k)->0;
    let before = fields_upto(p, n - 1);
    let all = fields_upto(p, n);
    if k == n - 1 {
        assert(annots_at(p, p.pages[k]) == Some(a));
        lemma_annots_listed(p, a, a.len() as int, k, i);
        let here = annots_upto(p, a, a.len() as int, k);
        let j = here.index_of(x);
        assert(all[before.len() + j] == x);
    } else {
        law_every_widget_is_listed(p, n - 1, k, a, i);
        let j = before.index_of(x);
        assert(all[j] == x);
    }
}

proof fn lemma_annots_are_widgets(p: PdfView, a: Seq<Val>, n: int, page: int, k: int)
    requires
        0 <= n <= a.len(),
        0 <= k < annots_upto(p, a, n, page).len(),
    ensures
        exists|i: int|
            0 <= i < n && (widget_at(p, #[trigger] a[i]) matches Some(d) && described(p, d, page)
                == Some(annots_upto(p, a, n, page)[k])),
    decreases n,
{
    if n > 0 {
        let before = annots_upto(p, a, n - 1, page);
        if k < before.len() {
            lemma_annots_are_widgets(p, a, n - 1, page, k);
            let i = choose|i: int|
                0 <= i < n - 1 && (widget_at(p, #[trigger] a[i]) matches Some(d) && described(
                    p,
                    d,
                    page,
                ) == Some(before[k]));
            assert(widget_at(p, a[i]) is Some);
        } else {
            assert(widget_at(p, a[n - 1]) is Some);
        }
    }
}

/// Whether an entry is that of a widget on one of the first `n` pages.
pub open spec fn is_of_a_widget(p: PdfView, n: int, f: FieldView) -> bool {
    0 <= f.page < n && (annots_at(p, p.pages[f.page]) matches Some(a) && exists|i: int|
        0 <= i < a.len() && (widget_at(p, #[trigger] a[i]) matches Some(d) && described(p, d, f.page)
            == Some(f)))
}

/// Nothing else is in the list: every entry is that of a widget, on the page
/// that it names, and the pages follow each other.
pub proof fn law_only_widgets_are_listed(p: PdfView, n: int, k: int)
    requires
        0 <= n <= p.pages.len(),
        0 <= k < fields_upto(p, n).len(),
    ensures
        is_of_a_widget(p, n, fields_upto(p, n)[k]),
        k > 0 ==> fields_upto(p, n)[k - 1].page <= fields_upto(p, n)[k].page,
    decreases n,
{
    if n > 0 {
        let before = fields_upto(p, n - 1);
        let all = fields_upto(p, n);
        if k < before.len() {
            law_only_widgets_are_listed(p, n - 1, k);
            assert(all[k] == before[k]);
            if k > 0 {
                assert(all[k - 1] == before[k - 1]);
            }
        } else {
            let a = annots_at(p, p.pages[n - 1])->0;
            let here = annots_upto(p, a, a.len() as int, n - 1);
            let j = k - before.len();
            assert(all[k] == here[j]);
            lemma_annots_are_widgets(p, a, a.len() as int, n - 1, j);
            if k > 0 {
                if j > 0 {
                    lemma_annots_are_widgets(p, a, a.len() as int, n - 1, j - 1);
                    assert(all[k - 1] == here[j - 1]);
                } else {
                    law_only_widgets_are_listed(p, n - 1, k - 1);
                    assert(all[k - 1] == before[k - 1]);
                }
            }
        }
    }
}

} // verus!
