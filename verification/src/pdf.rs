//! The objects of a PDF document: reading them, looking one up, and changing
//! entries.
use lopdf::{Dictionary, Object, ObjectId, StringFormat};
use vstd::prelude::*;

verus! {

/// The number and generation of an object.
#[derive(Clone, Copy, PartialEq, Eq, Debug, Structural)]
pub struct ObjId {
    pub num: u32,
    pub gen: u16,
}

/// A PDF object. A real number is kept as it is printed.
#[derive(Debug)]
pub enum Obj {
    Null,
    Bool(bool),
    Int(i64),
    Real(String),
    Name(Vec<u8>),
    /// A string, written in hexadecimal or literally.
    Str(Vec<u8>, bool),
    Array(Vec<Obj>),
    Dict(Vec<(Vec<u8>, Obj)>),
    Stream(Vec<(Vec<u8>, Obj)>, Vec<u8>),
    Ref(ObjId),
}

/// An [`Obj`] as a value.
pub enum Val {
    Null,
    Bool(bool),
    Int(i64),
    Real(Seq<char>),
    Name(Seq<u8>),
    Str(Seq<u8>, bool),
    Array(Seq<Val>),
    Dict(Seq<(Seq<u8>, Val)>),
    Stream(Seq<(Seq<u8>, Val)>, Seq<u8>),
    Ref(ObjId),
}

/// An object as a value.
pub open spec fn val(o: Obj) -> Val
    decreases o,
{
    match o {
        Obj::Null => Val::Null,
        Obj::Bool(b) => Val::Bool(b),
        Obj::Int(i) => Val::Int(i),
        Obj::Real(t) => Val::Real(t@),
        Obj::Name(n) => Val::Name(n@),
        Obj::Str(s, hex) => Val::Str(s@, hex),
        Obj::Array(a) => Val::Array(vals(a@)),
        Obj::Dict(d) => Val::Dict(entries(d@)),
        Obj::Stream(d, c) => Val::Stream(entries(d@), c@),
        Obj::Ref(id) => Val::Ref(id),
    }
}

/// Objects as values.
pub open spec fn vals(s: Seq<Obj>) -> Seq<Val>
    decreases s,
{
    if s.len() == 0 {
        seq![]
    } else {
        vals(s.drop_last()).push(val(s.last()))
    }
}

/// Dictionary entries as values.
pub open spec fn entries(s: Seq<(Vec<u8>, Obj)>) -> Seq<(Seq<u8>, Val)>
    decreases s,
{
    if s.len() == 0 {
        seq![]
    } else {
        entries(s.drop_last()).push((s.last().0@, val(s.last().1)))
    }
}

impl View for Obj {
    type V = Val;

    open spec fn view(&self) -> Val {
        val(*self)
    }
}

/// `vals` works object by object.
pub proof fn lemma_vals(s: Seq<Obj>)
    ensures
        vals(s).len() == s.len(),
        forall|i: int| 0 <= i < s.len() ==> #[trigger] vals(s)[i] == val(s[i]),
    decreases s.len(),
{
    if s.len() > 0 {
        lemma_vals(s.drop_last());
        assert forall|i: int| 0 <= i < s.len() implies #[trigger] vals(s)[i] == val(s[i]) by {
            if i < s.len() - 1 {
                assert(vals(s)[i] == vals(s.drop_last())[i]);
                assert(s.drop_last()[i] == s[i]);
            }
        }
    }
}

/// `entries` works entry by entry.
pub proof fn lemma_entries(s: Seq<(Vec<u8>, Obj)>)
    ensures
        entries(s).len() == s.len(),
        forall|i: int|
            0 <= i < s.len() ==> #[trigger] entries(s)[i] == (s[i].0@, val(s[i].1)),
    decreases s.len(),
{
    if s.len() > 0 {
        lemma_entries(s.drop_last());
        assert forall|i: int| 0 <= i < s.len() implies #[trigger] entries(s)[i] == (
            s[i].0@,
            val(s[i].1),
        ) by {
            if i < s.len() - 1 {
                assert(entries(s)[i] == entries(s.drop_last())[i]);
                assert(s.drop_last()[i] == s[i]);
            }
        }
    }
}

pub proof fn lemma_vals_push(s: Seq<Obj>, o: Obj)
    ensures
        vals(s.push(o)) == vals(s).push(val(o)),
{
    assert(s.push(o).drop_last() =~= s);
}

pub proof fn lemma_entries_push(s: Seq<(Vec<u8>, Obj)>, e: (Vec<u8>, Obj))
    ensures
        entries(s.push(e)) == entries(s).push((e.0@, val(e.1))),
{
    assert(s.push(e).drop_last() =~= s);
}

// --- Bytes ---

pub(crate) fn copy_bytes(v: &[u8]) -> (r: Vec<u8>)
    ensures
        r@ == v@,
{
    let mut out: Vec<u8> = Vec::new();
    let mut i: usize = 0;
    while i < v.len()
        invariant
            i <= v@.len(),
            out@ == v@.take(i as int),
        decreases v.len() - i,
    {
        out.push(v[i]);
        assert(v@.take(i as int).push(v@[i as int]) =~= v@.take(i + 1));
        i += 1;
    }
    assert(v@.take(v@.len() as int) =~= v@);
    out
}

pub(crate) fn same_bytes(a: &[u8], b: &[u8]) -> (r: bool)
    ensures
        r == (a@ == b@),
{
    if a.len() != b.len() {
        return false;
    }
    let mut i: usize = 0;
    while i < a.len()
        invariant
            a@.len() == b@.len(),
            i <= a@.len(),
            forall|k: int| 0 <= k < i ==> a@[k] == b@[k],
        decreases a.len() - i,
    {
        if a[i] != b[i] {
            return false;
        }
        i += 1;
    }
    assert(a@ =~= b@);
    true
}

/// Whether bytes are those of an ASCII word.
pub(crate) fn is_word(a: &[u8], word: &str) -> (r: bool)
    ensures
        r == (a@ == bytes_of(word@)),
{
    same_bytes(a, word.as_bytes())
}

/// The UTF-8 bytes of a text.
pub open spec fn bytes_of(s: Seq<char>) -> Seq<u8> {
    vstd::utf8::encode_utf8(s)
}

pub(crate) fn to_bytes(s: &str) -> (r: Vec<u8>)
    ensures
        r@ == bytes_of(s@),
{
    copy_bytes(s.as_bytes())
}

// --- Copies ---

/// A copy of an object with all in it.
pub fn copy_obj(o: &Obj) -> (r: Obj)
    ensures
        r@ == o@,
    decreases o,
{
    match o {
        Obj::Null => Obj::Null,
        Obj::Bool(b) => Obj::Bool(*b),
        Obj::Int(i) => Obj::Int(*i),
        Obj::Real(t) => Obj::Real(t.clone()),
        Obj::Name(n) => Obj::Name(copy_bytes(n.as_slice())),
        Obj::Str(s, hex) => Obj::Str(copy_bytes(s.as_slice()), *hex),
        Obj::Array(a) => Obj::Array(copy_array(a)),
        Obj::Dict(d) => Obj::Dict(copy_dict(d)),
        Obj::Stream(d, c) => Obj::Stream(copy_dict(d), copy_bytes(c.as_slice())),
        Obj::Ref(id) => Obj::Ref(*id),
    }
}

fn copy_array(a: &Vec<Obj>) -> (r: Vec<Obj>)
    ensures
        vals(r@) == vals(a@),
    decreases a,
{
    let mut out: Vec<Obj> = Vec::new();
    let mut i: usize = 0;
    proof {
        lemma_vals(a@);
    }
    assert(vals(a@).take(0) =~= seq![]);
    while i < a.len()
        invariant
            i <= a@.len(),
            vals(a@).len() == a@.len(),
            forall|k: int| 0 <= k < a@.len() ==> #[trigger] vals(a@)[k] == val(a@[k]),
            vals(out@) == vals(a@).take(i as int),
        decreases a.len() - i,
    {
        let c = copy_obj(&a[i]);
        proof {
            lemma_vals_push(out@, c);
            assert(vals(a@)[i as int] == val(a@[i as int]));
            assert(vals(a@).take(i as int).push(vals(a@)[i as int]) =~= vals(a@).take(i + 1));
        }
        out.push(c);
        i += 1;
    }
    assert(vals(a@).take(a@.len() as int) =~= vals(a@));
    out
}

pub(crate) fn copy_dict(d: &Vec<(Vec<u8>, Obj)>) -> (r: Vec<(Vec<u8>, Obj)>)
    ensures
        entries(r@) == entries(d@),
    decreases d,
{
    let mut out: Vec<(Vec<u8>, Obj)> = Vec::new();
    let mut i: usize = 0;
    proof {
        lemma_entries(d@);
    }
    assert(entries(d@).take(0) =~= seq![]);
    while i < d.len()
        invariant
            i <= d@.len(),
            entries(d@).len() == d@.len(),
            forall|k: int|
                0 <= k < d@.len() ==> #[trigger] entries(d@)[k] == (d@[k].0@, val(d@[k].1)),
            entries(out@) == entries(d@).take(i as int),
        decreases d.len() - i,
    {
        let e = &d[i];
        let c = (copy_bytes(e.0.as_slice()), copy_obj(&e.1));
        proof {
            lemma_entries_push(out@, c);
            assert(entries(d@)[i as int] == (d@[i as int].0@, val(d@[i as int].1)));
            assert(entries(d@).take(i as int).push(entries(d@)[i as int]) =~= entries(d@).take(
                i + 1,
            ));
        }
        out.push(c);
        i += 1;
    }
    assert(entries(d@).take(d@.len() as int) =~= entries(d@));
    out
}

// --- Dictionaries ---

/// Where a key stands, from `i` on.
pub open spec fn key_from(d: Seq<(Seq<u8>, Val)>, key: Seq<u8>, i: int) -> Option<int>
    decreases d.len() - i,
{
    if i < 0 || i >= d.len() {
        None
    } else if d[i].0 == key {
        Some(i)
    } else {
        key_from(d, key, i + 1)
    }
}

/// The value of a key.
pub open spec fn dict_get(d: Seq<(Seq<u8>, Val)>, key: Seq<char>) -> Option<Val> {
    match key_from(d, bytes_of(key), 0) {
        Some(i) => Some(d[i].1),
        None => None,
    }
}

/// `d` with a key set: in its place, or behind all others.
pub open spec fn dict_set(d: Seq<(Seq<u8>, Val)>, key: Seq<char>, v: Val) -> Seq<(Seq<u8>, Val)> {
    match key_from(d, bytes_of(key), 0) {
        Some(i) => d.update(i, (bytes_of(key), v)),
        None => d.push((bytes_of(key), v)),
    }
}

/// The place of a key is one where it stands.
pub proof fn lemma_key_from(d: Seq<(Seq<u8>, Val)>, key: Seq<u8>, i: int)
    requires
        0 <= i,
    ensures
        match key_from(d, key, i) {
            Some(k) => i <= k < d.len() && d[k].0 == key && forall|j: int|
                i <= j < k ==> (#[trigger] d[j]).0 != key,
            None => forall|j: int| i <= j < d.len() ==> (#[trigger] d[j]).0 != key,
        },
    decreases d.len() - i,
{
    if i < d.len() && d[i].0 != key {
        lemma_key_from(d, key, i + 1);
    }
}

pub(crate) fn find_key(d: &Vec<(Vec<u8>, Obj)>, key: &[u8]) -> (r: Option<usize>)
    ensures
        r is Some == key_from(entries(d@), key@, 0) is Some,
        r is Some ==> r->0 as int == key_from(entries(d@), key@, 0)->0 && r->0 < d@.len(),
{
    let ghost all = entries(d@);
    proof {
        lemma_entries(d@);
    }
    let mut i: usize = 0;
    while i < d.len()
        invariant
            i <= d@.len(),
            all == entries(d@),
            all.len() == d@.len(),
            forall|k: int| 0 <= k < d@.len() ==> #[trigger] all[k] == (d@[k].0@, val(d@[k].1)),
            key_from(all, key@, 0) == key_from(all, key@, i as int),
        decreases d.len() - i,
    {
        assert(all[i as int] == (d@[i as int].0@, val(d@[i as int].1)));
        if same_bytes(d[i].0.as_slice(), key) {
            return Some(i);
        }
        i += 1;
    }
    None
}

/// The value of a key.
pub fn get<'a>(d: &'a Vec<(Vec<u8>, Obj)>, key: &str) -> (r: Option<&'a Obj>)
    ensures
        r is Some == dict_get(entries(d@), key@) is Some,
        r is Some ==> r->0@ == dict_get(entries(d@), key@)->0,
{
    proof {
        lemma_entries(d@);
    }
    match find_key(d, key.as_bytes()) {
        Some(i) => {
            assert(entries(d@)[i as int] == (d@[i as int].0@, val(d@[i as int].1)));
            Some(&d[i].1)
        },
        None => None,
    }
}

/// Whether there is a key, given by its bytes.
pub fn has_bytes(d: &Vec<(Vec<u8>, Obj)>, key: &[u8]) -> (r: bool)
    ensures
        r == key_from(entries(d@), key@, 0) is Some,
{
    find_key(d, key).is_some()
}

/// Sets a key.
pub fn put_entry(d: &mut Vec<(Vec<u8>, Obj)>, key: &str, value: Obj)
    ensures
        entries(final(d)@) == dict_set(entries(old(d)@), key@, value@),
{
    let ghost before = entries(d@);
    let ghost v = value@;
    let k = to_bytes(key);
    proof {
        lemma_entries(d@);
    }
    match find_key(d, key.as_bytes()) {
        Some(i) => {
            let ghost was = d@;
            d.set(i, (k, value));
            proof {
                lemma_entries(d@);
                assert(entries(d@) =~= before.update(i as int, (bytes_of(key@), v))) by {
                    assert forall|j: int| 0 <= j < before.len() implies #[trigger] entries(d@)[j]
                        == before.update(i as int, (bytes_of(key@), v))[j] by {
                        assert(entries(d@)[j] == (d@[j].0@, val(d@[j].1)));
                        if j != i {
                            assert(d@[j] == was[j]);
                            assert(before[j] == (was[j].0@, val(was[j].1)));
                        }
                    }
                }
            }
        },
        None => {
            proof {
                lemma_entries_push(d@, (k, value));
            }
            d.push((k, value));
        },
    }
}

// --- Documents ---

/// A document: its objects in the order of their numbers, its pages, whether it
/// is encrypted or was decrypted as it was read, the greatest object number, and
/// which objects were changed.
#[derive(Debug)]
pub struct Pdf {
    pub objects: Vec<(ObjId, Obj)>,
    pub pages: Vec<ObjId>,
    pub encrypted: bool,
    pub decrypted: bool,
    pub max_id: u32,
    pub dirty: Vec<ObjId>,
}

/// A [`Pdf`] as a value.
pub struct PdfView {
    pub objects: Seq<(ObjId, Val)>,
    pub pages: Seq<ObjId>,
    pub encrypted: bool,
    pub decrypted: bool,
    pub max_id: u32,
    pub dirty: Seq<ObjId>,
}

/// Whether the file of a document is encrypted, be it with a password or
/// without one. Such a file is left alone.
pub open spec fn is_sealed(p: PdfView) -> bool {
    p.encrypted || p.decrypted
}

/// Numbered objects as values.
pub open spec fn object_views(s: Seq<(ObjId, Obj)>) -> Seq<(ObjId, Val)> {
    s.map_values(|p: (ObjId, Obj)| (p.0, p.1@))
}

impl View for Pdf {
    type V = PdfView;

    open spec fn view(&self) -> PdfView {
        PdfView {
            objects: object_views(self.objects@),
            pages: self.pages@,
            encrypted: self.encrypted,
            decrypted: self.decrypted,
            max_id: self.max_id,
            dirty: self.dirty@,
        }
    }
}

/// How many references are followed from one object to the next.
pub const DEREF_LIMIT: usize = 128;

/// Where an object stands, from `i` on.
pub open spec fn object_from(all: Seq<(ObjId, Val)>, id: ObjId, i: int) -> Option<int>
    decreases all.len() - i,
{
    if i < 0 || i >= all.len() {
        None
    } else if all[i].0 == id {
        Some(i)
    } else {
        object_from(all, id, i + 1)
    }
}

/// Where the object stands that `id` leads to, over at most `left` references
/// that are objects of their own.
pub open spec fn end_from(all: Seq<(ObjId, Val)>, id: ObjId, left: nat) -> Option<int>
    decreases left,
{
    match object_from(all, id, 0) {
        Some(k) => match all[k].1 {
            Val::Ref(next) => if left == 0 {
                None
            } else {
                end_from(all, next, (left - 1) as nat)
            },
            _ => Some(k),
        },
        None => None,
    }
}

/// The object that `id` leads to.
pub open spec fn object_at(p: PdfView, id: ObjId) -> Option<Val> {
    match end_from(p.objects, id, DEREF_LIMIT as nat) {
        Some(k) => Some(p.objects[k].1),
        None => None,
    }
}

/// A value, or the object that it refers to.
pub open spec fn resolved(p: PdfView, v: Val) -> Option<Val> {
    match v {
        Val::Ref(id) => object_at(p, id),
        _ => Some(v),
    }
}

/// A value as a dictionary.
pub open spec fn as_dict(v: Option<Val>) -> Option<Seq<(Seq<u8>, Val)>> {
    match v {
        Some(Val::Dict(d)) => Some(d),
        _ => None,
    }
}

/// The dictionary that an entry holds or refers to.
pub open spec fn dict_in(p: PdfView, d: Seq<(Seq<u8>, Val)>, key: Seq<char>) -> Option<
    Seq<(Seq<u8>, Val)>,
> {
    match dict_get(d, key) {
        Some(v) => as_dict(resolved(p, v)),
        None => None,
    }
}

pub proof fn lemma_object_from(all: Seq<(ObjId, Val)>, id: ObjId, i: int)
    requires
        0 <= i,
    ensures
        match object_from(all, id, i) {
            Some(k) => i <= k < all.len() && all[k].0 == id,
            None => forall|j: int| i <= j < all.len() ==> (#[trigger] all[j]).0 != id,
        },
    decreases all.len() - i,
{
    if i < all.len() && all[i].0 != id {
        lemma_object_from(all, id, i + 1);
    }
}

/// What an id leads to is an object of the document and no reference.
pub proof fn lemma_end_from(all: Seq<(ObjId, Val)>, id: ObjId, left: nat)
    ensures
        match end_from(all, id, left) {
            Some(k) => 0 <= k < all.len() && !(all[k].1 is Ref),
            None => true,
        },
    decreases left,
{
    lemma_object_from(all, id, 0);
    if let Some(k) = object_from(all, id, 0) {
        if let Val::Ref(next) = all[k].1 {
            if left > 0 {
                lemma_end_from(all, next, (left - 1) as nat);
            }
        }
    }
}

impl Pdf {
    /// Whether the file is encrypted, be it with a password or without one.
    pub fn sealed(&self) -> (r: bool)
        ensures
            r == is_sealed(self@),
    {
        self.encrypted || self.decrypted
    }

    pub(crate) fn find(&self, id: ObjId) -> (r: Option<usize>)
        ensures
            r is Some == object_from(self@.objects, id, 0) is Some,
            r is Some ==> r->0 as int == object_from(self@.objects, id, 0)->0 && r->0
                < self.objects@.len(),
    {
        let ghost all = self@.objects;
        let mut i: usize = 0;
        while i < self.objects.len()
            invariant
                i <= self.objects@.len(),
                all == self@.objects,
                object_from(all, id, 0) == object_from(all, id, i as int),
            decreases self.objects.len() - i,
        {
            assert(all[i as int] == (self.objects@[i as int].0, self.objects@[i as int].1@));
            if self.objects[i].0 == id {
                return Some(i);
            }
            i += 1;
        }
        None
    }

    fn find_end(&self, id: ObjId, left: usize) -> (r: Option<usize>)
        ensures
            r is Some == end_from(self@.objects, id, left as nat) is Some,
            r is Some ==> r->0 as int == end_from(self@.objects, id, left as nat)->0 && r->0
                < self.objects@.len(),
        decreases left,
    {
        match self.find(id) {
            Some(k) => {
                assert(self@.objects[k as int] == (
                    self.objects@[k as int].0,
                    self.objects@[k as int].1@,
                ));
                match &self.objects[k].1 {
                    Obj::Ref(next) => if left == 0 {
                        None
                    } else {
                        self.find_end(*next, left - 1)
                    },
                    _ => Some(k),
                }
            },
            None => None,
        }
    }

    /// The object that `id` leads to.
    pub fn object(&self, id: ObjId) -> (r: Option<&Obj>)
        ensures
            r is Some == object_at(self@, id) is Some,
            r is Some ==> r->0@ == object_at(self@, id)->0,
    {
        match self.find_end(id, DEREF_LIMIT) {
            Some(k) => {
                assert(self@.objects[k as int] == (
                    self.objects@[k as int].0,
                    self.objects@[k as int].1@,
                ));
                Some(&self.objects[k].1)
            },
            None => None,
        }
    }

    /// A value, or the object that it refers to.
    pub fn deref<'a>(&'a self, o: &'a Obj) -> (r: Option<&'a Obj>)
        ensures
            r is Some == resolved(self@, o@) is Some,
            r is Some ==> r->0@ == resolved(self@, o@)->0,
    {
        match o {
            Obj::Ref(id) => self.object(*id),
            _ => Some(o),
        }
    }

    /// The dictionary that an entry holds or refers to.
    pub fn dict<'a>(&'a self, d: &'a Vec<(Vec<u8>, Obj)>, key: &str) -> (r: Option<
        &'a Vec<(Vec<u8>, Obj)>,
    >)
        ensures
            r is Some == dict_in(self@, entries(d@), key@) is Some,
            r is Some ==> entries(r->0@) == dict_in(self@, entries(d@), key@)->0,
    {
        match get(d, key) {
            Some(v) => match self.deref(v) {
                Some(Obj::Dict(x)) => Some(x),
                _ => None,
            },
            None => None,
        }
    }

    /// The dictionary that `id` leads to.
    pub fn dict_at(&self, id: ObjId) -> (r: Option<&Vec<(Vec<u8>, Obj)>>)
        ensures
            r is Some == as_dict(object_at(self@, id)) is Some,
            r is Some ==> entries(r->0@) == as_dict(object_at(self@, id))->0,
    {
        match self.object(id) {
            Some(Obj::Dict(x)) => Some(x),
            _ => None,
        }
    }

    /// Adds an object under the next number; there is none behind the greatest
    /// number. Gives whether it did, the number being the new greatest.
    pub fn add(&mut self, o: Obj) -> (r: Option<ObjId>)
        ensures
            (final(self)@, r) == added(old(self)@, o@),
    {
        let ghost before = self@;
        let ghost v = o@;
        if self.max_id == u32::MAX {
            return None;
        }
        let id = ObjId { num: self.max_id + 1, gen: 0 };
        self.max_id = self.max_id + 1;
        match self.find(id) {
            Some(k) => {
                self.objects.set(k, (id, o));
                assert(self@.objects =~= before.objects.update(k as int, (id, v)));
            },
            None => {
                self.objects.push((id, o));
                assert(self@.objects =~= before.objects.push((id, v)));
            },
        }
        self.dirty.push(id);
        Some(id)
    }

    /// Sets an entry of the dictionary that `id` leads to. Gives whether it
    /// leads to one.
    pub fn set_entry(&mut self, id: ObjId, key: &str, value: Obj) -> (r: bool)
        ensures
            (final(self)@, r) == entry_set(old(self)@, id, key@, value@),
    {
        let ghost before = self@;
        let ghost v = value@;
        match self.find_end(id, DEREF_LIMIT) {
            Some(k) => {
                let owner: ObjId = self.objects[k].0;
                assert(before.objects[k as int] == (
                    self.objects@[k as int].0,
                    self.objects@[k as int].1@,
                ));
                let fresh: Vec<(Vec<u8>, Obj)> = match &self.objects[k].1 {
                    Obj::Dict(d) => {
                        let mut copy = copy_dict(d);
                        put_entry(&mut copy, key, value);
                        copy
                    },
                    _ => {
                        return false;
                    },
                };
                self.objects.set(k, (owner, Obj::Dict(fresh)));
                assert(self@.objects =~= before.objects.update(
                    k as int,
                    (
                        owner,
                        Val::Dict(
                            dict_set(as_dict(Some(before.objects[k as int].1))->0, key@, v),
                        ),
                    ),
                ));
                self.dirty.push(owner);
                true
            },
            None => false,
        }
    }
}

/// `p` with one more object, and its number.
pub open spec fn added(p: PdfView, v: Val) -> (PdfView, Option<ObjId>) {
    if p.max_id == u32::MAX {
        (p, None)
    } else {
        let id = ObjId { num: (p.max_id + 1) as u32, gen: 0 };
        (
            PdfView {
                objects: match object_from(p.objects, id, 0) {
                    Some(k) => p.objects.update(k, (id, v)),
                    None => p.objects.push((id, v)),
                },
                max_id: id.num,
                dirty: p.dirty.push(id),
                ..p
            },
            Some(id),
        )
    }
}

/// `p` with an entry set in the dictionary that `id` leads to, and whether it
/// leads to one.
pub open spec fn entry_set(p: PdfView, id: ObjId, key: Seq<char>, v: Val) -> (PdfView, bool) {
    match end_from(p.objects, id, DEREF_LIMIT as nat) {
        Some(k) => match p.objects[k].1 {
            Val::Dict(d) => (
                PdfView {
                    objects: p.objects.update(
                        k,
                        (p.objects[k].0, Val::Dict(dict_set(d, key, v))),
                    ),
                    dirty: p.dirty.push(p.objects[k].0),
                    ..p
                },
                true,
            ),
            _ => (p, false),
        },
        None => (p, false),
    }
}

// --- Reading and writing documents ---

/// The document that the `lopdf` crate reads from bytes: its objects as they
/// stand, the object of each page in order, whether it is encrypted, whether it
/// was decrypted in reading, and its greatest object number. `None` where it
/// reads no document. Only the two flags count of a document that was decrypted.
pub uninterp spec fn pdf_read(bytes: Seq<u8>) -> Option<PdfView>;

/// The bytes that the `lopdf` crate writes for the document that it reads from
/// `bytes`, with some of its objects replaced and its greatest object number
/// set. `None` where it reads or writes none.
pub uninterp spec fn pdf_written(
    bytes: Seq<u8>,
    edits: Seq<(ObjId, Val)>,
    max_id: u32,
) -> Option<Seq<u8>>;

/// What `lopdf::Document::load_mem` reads, with the objects of
/// `Document::objects`, the pages of `Document::get_pages`,
/// `Document::is_encrypted` and `Document::was_encrypted`. Whether there is a
/// document, and the two flags, depend on the bytes alone; without `lopdf`'s
/// `rayon` feature so do the objects, unless the document was decrypted: the
/// object streams of such a one are taken in no fixed order.
#[verifier::external_body]
pub(crate) fn read_pdf(bytes: &[u8]) -> (r: Option<Pdf>)
    ensures
        r is Some == pdf_read(bytes@) is Some,
        r is Some ==> r->0@.encrypted == pdf_read(bytes@)->0.encrypted,
        r is Some ==> r->0@.decrypted == pdf_read(bytes@)->0.decrypted,
        r is Some && !r->0@.decrypted ==> r->0@ == pdf_read(bytes@)->0,
        r is Some ==> r->0@.dirty == Seq::<ObjId>::empty(),
{
    let doc = lopdf::Document::load_mem(bytes).ok()?;
    Some(Pdf {
        objects: doc.objects.iter().map(|(id, o)| (lift_id(id), lift(o))).collect(),
        pages: doc.get_pages().values().map(lift_id).collect(),
        encrypted: doc.is_encrypted(),
        decrypted: doc.was_encrypted(),
        max_id: doc.max_id,
        dirty: Vec::new(),
    })
}

/// What `lopdf::Document::save_to` writes for the document that
/// `lopdf::Document::load_mem` reads, with `edits` put among its objects. The
/// result depends on the arguments alone, where the document was not decrypted
/// in reading. Nothing is claimed of what reading those bytes again gives.
#[verifier::external_body]
pub(crate) fn write_pdf(bytes: &[u8], edits: &Vec<(ObjId, Obj)>, max_id: u32) -> (r: Option<Vec<u8>>)
    requires
        pdf_read(bytes@) is Some,
        !pdf_read(bytes@)->0.decrypted,
    ensures
        r is Some == pdf_written(bytes@, object_views(edits@), max_id) is Some,
        r is Some ==> r->0@ == pdf_written(bytes@, object_views(edits@), max_id)->0,
{
    let mut doc = lopdf::Document::load_mem(bytes).ok()?;
    doc.objects.extend(edits.iter().map(|(id, o)| ((id.num, id.gen), lower(o))));
    doc.max_id = max_id;
    let mut out = Vec::new();
    doc.save_to(&mut out).ok()?;
    Some(out)
}

/// `lopdf::ObjectId` as an object number.
#[verifier::external_body]
fn lift_id(id: &ObjectId) -> ObjId {
    ObjId { num: id.0, gen: id.1 }
}

/// `lopdf::Object` as an object of the library.
#[verifier::external_body]
fn lift(o: &Object) -> Obj {
    match o {
        Object::Null => Obj::Null,
        Object::Boolean(b) => Obj::Bool(*b),
        Object::Integer(i) => Obj::Int(*i),
        Object::Real(r) => Obj::Real(format!("{r}")),
        Object::Name(n) => Obj::Name(n.clone()),
        Object::String(s, f) => Obj::Str(s.clone(), *f == StringFormat::Hexadecimal),
        Object::Array(a) => Obj::Array(a.iter().map(lift).collect()),
        Object::Dictionary(d) => Obj::Dict(lift_dict(d)),
        Object::Stream(s) => Obj::Stream(lift_dict(&s.dict), s.content.clone()),
        Object::Reference(id) => Obj::Ref(lift_id(id)),
    }
}

/// `lopdf::Dictionary` as entries in their order.
#[verifier::external_body]
fn lift_dict(d: &Dictionary) -> Vec<(Vec<u8>, Obj)> {
    d.iter().map(|(k, v)| (k.clone(), lift(v))).collect()
}

/// An object of the library as a `lopdf::Object`.
#[verifier::external_body]
fn lower(o: &Obj) -> Object {
    match o {
        Obj::Array(a) => Object::Array(a.iter().map(lower).collect()),
        Obj::Dict(d) => Object::Dictionary(lower_dict(d)),
        Obj::Stream(d, c) => Object::Stream(lopdf::Stream::new(lower_dict(d), c.clone())),
        _ => lower_leaf(o),
    }
}

/// An object without parts as a `lopdf::Object`.
#[verifier::external_body]
fn lower_leaf(o: &Obj) -> Object {
    match o {
        Obj::Bool(b) => Object::Boolean(*b),
        Obj::Int(i) => Object::Integer(*i),
        Obj::Real(t) => Object::Real(t.parse().unwrap_or_default()),
        Obj::Name(n) => Object::Name(n.clone()),
        Obj::Str(s, hex) => Object::String(s.clone(), lower_format(*hex)),
        Obj::Ref(id) => Object::Reference((id.num, id.gen)),
        _ => Object::Null,
    }
}

/// How a string is written, as `lopdf::StringFormat`.
#[verifier::external_body]
fn lower_format(hex: bool) -> StringFormat {
    if hex {
        StringFormat::Hexadecimal
    } else {
        StringFormat::Literal
    }
}

/// Entries as a `lopdf::Dictionary`.
#[verifier::external_body]
fn lower_dict(d: &Vec<(Vec<u8>, Obj)>) -> Dictionary {
    d.iter().map(|(k, v)| (k.clone(), lower(v))).collect()
}

/// The types of `lopdf` that the conversions name, opaque.
#[verifier::external_type_specification]
#[verifier::external_body]
pub struct ExPdfObject(lopdf::Object);

/// A dictionary of `lopdf`, opaque.
#[verifier::external_type_specification]
#[verifier::external_body]
pub struct ExPdfDictionary(lopdf::Dictionary);

/// The string format of `lopdf`, opaque.
#[verifier::external_type_specification]
#[verifier::external_body]
pub struct ExPdfStringFormat(lopdf::StringFormat);

// --- Laws ---

/// A key that was set reads back, and every other key as before.
pub proof fn law_set_then_get(d: Seq<(Seq<u8>, Val)>, key: Seq<char>, v: Val, other: Seq<char>)
    ensures
        dict_get(dict_set(d, key, v), key) == Some(v),
        bytes_of(other) != bytes_of(key) ==> dict_get(dict_set(d, key, v), other) == dict_get(
            d,
            other,
        ),
{
    let s = dict_set(d, key, v);
    lemma_key_from(d, bytes_of(key), 0);
    lemma_key_from(s, bytes_of(key), 0);
    lemma_key_from(d, bytes_of(other), 0);
    lemma_key_from(s, bytes_of(other), 0);
    let at = match key_from(d, bytes_of(key), 0) {
        Some(i) => i,
        None => d.len() as int,
    };
    assert(s[at] == (bytes_of(key), v));
    assert forall|j: int| 0 <= j < d.len() && j != at implies #[trigger] s[j] == d[j] by {}
    let k = key_from(s, bytes_of(key), 0)->0;
    if k < at {
        assert(s[k] == d[k]);
    }
    if bytes_of(other) != bytes_of(key) {
        match key_from(d, bytes_of(other), 0) {
            Some(i) => {
                assert(s[i] == d[i]);
                let m = key_from(s, bytes_of(other), 0)->0;
                assert(m < d.len() && m != at);
                assert(s[m] == d[m]);
                if m < i {
                    assert(d[m].0 == bytes_of(other));
                }
            },
            None => {
                if let Some(m) = key_from(s, bytes_of(other), 0) {
                    assert(m != at);
                    assert(s[m] == d[m]);
                }
            },
        }
    }
}

} // verus!
