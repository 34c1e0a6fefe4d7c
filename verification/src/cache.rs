//! The parse cache: the pages parsed last, by their text, up to a limit.
use crate::cheap::{is_cheap, is_cheap_to_parse};
use crate::math::{cow_text, normalize_math_fences, normalized};
use crate::parse::{markdown_blocks, parse_blocks};
use crate::tree::{trees, DocNode, Tree};
use std::sync::Arc;
use vstd::prelude::*;

verus! {

/// How many parsed pages are kept.
pub const PARSE_CACHE_CAP: usize = 64;

/// A parsed page, and when it was last used.
#[derive(Debug)]
pub struct Entry {
    pub key: String,
    pub blocks: Arc<Vec<DocNode>>,
    pub used: u64,
}

/// An [`Entry`] as a value.
pub struct Slot {
    pub key: Seq<char>,
    pub blocks: Seq<Tree>,
    pub used: int,
}

impl View for Entry {
    type V = Slot;

    open spec fn view(&self) -> Slot {
        Slot { key: self.key@, blocks: trees((*self.blocks)@), used: self.used as int }
    }
}

/// The pages parsed last. The clock moves on with every lookup and insertion.
#[derive(Debug)]
pub struct ParseCache {
    pub entries: Vec<Entry>,
    pub clock: u64,
}

/// Entries as values.
pub open spec fn slots(v: Seq<Entry>) -> Seq<Slot> {
    v.map_values(|e: Entry| e@)
}

/// Whether no page is kept twice, no two were last used at the same time or in
/// the future, and there are not too many.
pub open spec fn is_orderly(s: Seq<Slot>, clock: int) -> bool {
    &&& s.len() <= PARSE_CACHE_CAP
    &&& forall|i: int| 0 <= i < s.len() ==> 0 <= (#[trigger] s[i]).used <= clock
    &&& forall|i: int, j: int|
        #![trigger s[i], s[j]]
        0 <= i < j < s.len() ==> s[i].key != s[j].key && s[i].used != s[j].used
}

/// Whether every page that is kept is what its text parses into.
pub open spec fn is_faithful(s: Seq<Slot>) -> bool {
    forall|i: int|
        0 <= i < s.len() ==> markdown_blocks((#[trigger] s[i]).key, true) == Some(s[i].blocks)
}

/// Where a page is kept, from `i` on.
pub open spec fn slot_from(s: Seq<Slot>, key: Seq<char>, i: int) -> Option<int>
    decreases s.len() - i,
{
    if i < 0 || i >= s.len() {
        None
    } else if s[i].key == key {
        Some(i)
    } else {
        slot_from(s, key, i + 1)
    }
}

/// Whether a page is kept.
pub open spec fn holds(s: Seq<Slot>, key: Seq<char>) -> bool {
    slot_from(s, key, 0) is Some
}

/// `s` with slot `i` used now.
pub open spec fn touched(s: Seq<Slot>, i: int, now: int) -> Seq<Slot> {
    s.update(i, Slot { used: now, ..s[i] })
}

/// `s` after a lookup of `key` at `now`.
pub open spec fn looked_up(s: Seq<Slot>, key: Seq<char>, now: int) -> Seq<Slot> {
    match slot_from(s, key, 0) {
        Some(i) => touched(s, i, now),
        None => s,
    }
}

/// The slot among the first `n` that was used least recently.
pub open spec fn oldest_upto(s: Seq<Slot>, n: int) -> int
    decreases n,
{
    if n <= 1 {
        0
    } else {
        let o = oldest_upto(s, n - 1);
        if s[n - 1].used < s[o].used {
            n - 1
        } else {
            o
        }
    }
}

/// `s` with room for one more: a full cache loses the page used least recently.
pub open spec fn with_room(s: Seq<Slot>) -> Seq<Slot> {
    if s.len() >= PARSE_CACHE_CAP {
        s.remove(oldest_upto(s, s.len() as int))
    } else {
        s
    }
}

/// `s` after a page was put in at `now`.
pub open spec fn inserted(s: Seq<Slot>, key: Seq<char>, blocks: Seq<Tree>, now: int) -> Seq<Slot> {
    let r = with_room(s);
    match slot_from(r, key, 0) {
        Some(i) => r.update(i, Slot { key, blocks, used: now }),
        None => r.push(Slot { key, blocks, used: now }),
    }
}

/// The entries after `key` was asked for at `clock`: touched where they hold it,
/// with what it parses into where they do not and it parses.
pub open spec fn after_parse(s: Seq<Slot>, key: Seq<char>, clock: int) -> Seq<Slot> {
    if holds(s, key) {
        looked_up(s, key, clock + 1)
    } else {
        match markdown_blocks(key, true) {
            Some(blocks) => inserted(s, key, blocks, clock + 2),
            None => s,
        }
    }
}

/// The clock after `key` was asked for at `clock`: a lookup and an insertion
/// each move it on by one.
pub open spec fn clock_after_parse(s: Seq<Slot>, key: Seq<char>, clock: int) -> int {
    if !holds(s, key) && markdown_blocks(key, true) is Some {
        clock + 2
    } else {
        clock + 1
    }
}

/// The entries after a frame asked for `key` at `clock`: only a page that is
/// cheap to parse is parsed.
pub open spec fn after_frame(s: Seq<Slot>, key: Seq<char>, clock: int) -> Seq<Slot> {
    if holds(s, key) {
        looked_up(s, key, clock + 1)
    } else if is_cheap(key) {
        after_parse(s, key, clock + 1)
    } else {
        s
    }
}

/// The clock after a frame asked for `key` at `clock`.
pub open spec fn clock_after_frame(s: Seq<Slot>, key: Seq<char>, clock: int) -> int {
    if !holds(s, key) && is_cheap(key) {
        clock_after_parse(s, key, clock + 1)
    } else {
        clock + 1
    }
}

/// Whether showing a page would wait for a parse: it is not cheap and not kept.
pub open spec fn is_cold(s: Seq<Slot>, key: Seq<char>) -> bool {
    !is_cheap(key) && !holds(s, key)
}

/// Another handle on the same page (`Arc::clone`).
#[verifier::external_body]
fn share(a: &Arc<Vec<DocNode>>) -> (r: Arc<Vec<DocNode>>)
    ensures
        r == *a,
{
    Arc::clone(a)
}

proof fn lemma_slot_from(s: Seq<Slot>, key: Seq<char>, i: int)
    requires
        0 <= i,
    ensures
        match slot_from(s, key, i) {
            Some(k) => i <= k < s.len() && s[k].key == key,
            None => forall|k: int| i <= k < s.len() ==> (#[trigger] s[k]).key != key,
        },
    decreases s.len() - i,
{
    if i < s.len() && s[i].key != key {
        lemma_slot_from(s, key, i + 1);
    }
}

proof fn lemma_holds(s: Seq<Slot>, key: Seq<char>, k: int)
    requires
        0 <= k < s.len(),
        s[k].key == key,
    ensures
        holds(s, key),
{
    lemma_slot_from(s, key, 0);
}

proof fn lemma_oldest(s: Seq<Slot>, n: int)
    requires
        0 < n <= s.len(),
    ensures
        0 <= oldest_upto(s, n) < n,
        forall|k: int|
            0 <= k < n ==> s[oldest_upto(s, n)].used <= (#[trigger] s[k]).used,
    decreases n,
{
    if n > 1 {
        lemma_oldest(s, n - 1);
    }
}

proof fn lemma_room(s: Seq<Slot>, clock: int)
    requires
        0 <= clock,
        is_orderly(s, clock),
    ensures
        is_orderly(with_room(s), clock),
        with_room(s).len() < PARSE_CACHE_CAP,
        is_faithful(s) ==> is_faithful(with_room(s)),
{
    if s.len() >= PARSE_CACHE_CAP {
        let o = oldest_upto(s, s.len() as int);
        lemma_oldest(s, s.len() as int);
        let r = s.remove(o);
        assert forall|i: int| 0 <= i < r.len() implies #[trigger] r[i] == s[if i < o {
            i
        } else {
            i + 1
        }] by {}
        assert forall|i: int, j: int|
            #![trigger r[i], r[j]]
            0 <= i < j < r.len() implies r[i].key != r[j].key && r[i].used != r[j].used by {
            let a = if i < o {
                i
            } else {
                i + 1
            };
            let b = if j < o {
                j
            } else {
                j + 1
            };
            assert(r[i] == s[a] && r[j] == s[b]);
        }
    }
}

proof fn lemma_inserted(s: Seq<Slot>, key: Seq<char>, blocks: Seq<Tree>, clock: int)
    requires
        0 <= clock,
        is_orderly(s, clock),
    ensures
        is_orderly(inserted(s, key, blocks, clock + 1), clock + 1),
        is_faithful(s) && markdown_blocks(key, true) == Some(blocks) ==> is_faithful(
            inserted(s, key, blocks, clock + 1),
        ),
        holds(inserted(s, key, blocks, clock + 1), key),
{
    lemma_room(s, clock);
    let r = with_room(s);
    lemma_slot_from(r, key, 0);
    let t = inserted(s, key, blocks, clock + 1);
    assert forall|i: int, j: int|
        #![trigger t[i], t[j]]
        0 <= i < j < t.len() implies t[i].key != t[j].key && t[i].used != t[j].used by {
        assert(i < r.len());
        assert(t[i] == r[i] || t[i] == (Slot { key, blocks, used: clock + 1 }));
        assert(r[i].used <= clock);
        if j < r.len() {
            assert(r[j].used <= clock);
            assert(r[i].key != r[j].key);
        }
    }
    match slot_from(r, key, 0) {
        Some(i) => {
            lemma_holds(t, key, i);
        },
        None => {
            lemma_holds(t, key, t.len() - 1);
        },
    }
}

proof fn lemma_looked_up(s: Seq<Slot>, key: Seq<char>, clock: int)
    requires
        0 <= clock,
        is_orderly(s, clock),
    ensures
        is_orderly(looked_up(s, key, clock + 1), clock + 1),
        is_faithful(s) ==> is_faithful(looked_up(s, key, clock + 1)),
{
    lemma_slot_from(s, key, 0);
}

impl ParseCache {
    /// What is kept, as values.
    pub open spec fn slots(&self) -> Seq<Slot> {
        slots(self.entries@)
    }

    /// Whether the cache is in order.
    pub open spec fn wf(&self) -> bool {
        is_orderly(self.slots(), self.clock as int)
    }

    /// An empty cache.
    pub fn new() -> (r: ParseCache)
        ensures
            r.wf(),
            r.slots() == Seq::<Slot>::empty(),
            r.clock == 0,
            is_faithful(r.slots()),
    {
        let r = ParseCache { entries: Vec::new(), clock: 0 };
        assert(r.slots() =~= Seq::<Slot>::empty());
        r
    }

    fn locate(&self, source: &String) -> (r: Option<usize>)
        ensures
            r is Some == slot_from(self.slots(), source@, 0) is Some,
            r is Some ==> r->0 as int == slot_from(self.slots(), source@, 0)->0 && r->0
                < self.entries@.len(),
    {
        let ghost all = self.slots();
        let mut i: usize = 0;
        while i < self.entries.len()
            invariant
                i <= self.entries@.len(),
                all == self.slots(),
                slot_from(all, source@, 0) == slot_from(all, source@, i as int),
            decreases self.entries.len() - i,
        {
            assert(all[i as int] == self.entries@[i as int]@);
            if self.entries[i].key == *source {
                return Some(i);
            }
            i += 1;
        }
        None
    }

    /// Keeps a parsed page; a full cache first loses the page used least
    /// recently.
    pub fn insert(&mut self, source: &str, blocks: Arc<Vec<DocNode>>)
        requires
            old(self).wf(),
            old(self).clock < u64::MAX,
        ensures
            final(self).wf(),
            final(self).clock == old(self).clock + 1,
            final(self).slots() == inserted(
                old(self).slots(),
                source@,
                trees((*blocks)@),
                final(self).clock as int,
            ),
            is_faithful(old(self).slots()) && markdown_blocks(source@, true) == Some(
                trees((*blocks)@),
            ) ==> is_faithful(final(self).slots()),
    {
        let ghost before = self.slots();
        let ghost value = trees((*blocks)@);
        proof {
            lemma_inserted(before, source@, value, self.clock as int);
            lemma_room(before, self.clock as int);
        }
        self.clock = self.clock + 1;
        let now: u64 = self.clock;
        if self.entries.len() >= PARSE_CACHE_CAP {
            let o: usize = self.find_oldest();
            let _ = self.entries.remove(o);
            assert(self.slots() =~= before.remove(o as int));
        }
        let ghost room = self.slots();
        assert(room == with_room(before));
        let key = source.to_owned();
        match self.locate(&key) {
            Some(i) => {
                self.entries.set(i, Entry { key, blocks, used: now });
                assert(self.slots() =~= room.update(
                    i as int,
                    Slot { key: source@, blocks: value, used: now as int },
                ));
            },
            None => {
                self.entries.push(Entry { key, blocks, used: now });
                assert(self.slots() =~= room.push(
                    Slot { key: source@, blocks: value, used: now as int },
                ));
            },
        }
    }

    fn find_oldest(&self) -> (r: usize)
        requires
            self.entries@.len() > 0,
        ensures
            r as int == oldest_upto(self.slots(), self.entries@.len() as int),
            r < self.entries@.len(),
    {
        let ghost all = self.slots();
        let mut o: usize = 0;
        let mut i: usize = 1;
        while i < self.entries.len()
            invariant
                1 <= i <= self.entries@.len(),
                o < i,
                all == self.slots(),
                o as int == oldest_upto(all, i as int),
            decreases self.entries.len() - i,
        {
            assert(all[i as int] == self.entries@[i as int]@);
            assert(all[o as int] == self.entries@[o as int]@);
            if self.entries[i].used < self.entries[o].used {
                o = i;
            }
            i += 1;
        }
        o
    }
}

/// The parsed page of `source`, if it is kept; it is then used now. Never
/// parses.
pub fn cache_get(cache: &mut ParseCache, source: &str) -> (r: Option<Arc<Vec<DocNode>>>)
    requires
        old(cache).wf(),
        old(cache).clock < u64::MAX,
    ensures
        final(cache).wf(),
        final(cache).clock == old(cache).clock + 1,
        final(cache).slots() == looked_up(
            old(cache).slots(),
            source@,
            final(cache).clock as int,
        ),
        r is Some == holds(old(cache).slots(), source@),
        r is Some ==> trees((*(r->0))@) == old(cache).slots()[slot_from(
            old(cache).slots(),
            source@,
            0,
        )->0].blocks,
        is_faithful(old(cache).slots()) ==> is_faithful(final(cache).slots()),
        is_faithful(old(cache).slots()) && r is Some ==> markdown_blocks(source@, true)
            == Some(trees((*(r->0))@)),
{
    let ghost before = cache.slots();
    proof {
        lemma_looked_up(before, source@, cache.clock as int);
        lemma_slot_from(before, source@, 0);
    }
    let key = source.to_owned();
    cache.clock = cache.clock + 1;
    let now: u64 = cache.clock;
    match cache.locate(&key) {
        Some(i) => {
            let old_entry = &cache.entries[i];
            assert(before[i as int] == old_entry@);
            let blocks = share(&old_entry.blocks);
            let again = share(&old_entry.blocks);
            let entry = Entry { key, blocks: again, used: now };
            cache.entries.set(i, entry);
            assert(cache.slots() =~= touched(before, i as int, now as int));
            Some(blocks)
        },
        None => None,
    }
}

/// Parses `source`, or takes what is kept of it. `None` where it is no
/// document, and nothing is then kept.
pub fn parse_cached(cache: &mut ParseCache, source: &str) -> (r: Option<Arc<Vec<DocNode>>>)
    requires
        old(cache).wf(),
        old(cache).clock < u64::MAX - 1,
    ensures
        final(cache).wf(),
        final(cache).clock == clock_after_parse(
            old(cache).slots(),
            source@,
            old(cache).clock as int,
        ),
        is_faithful(old(cache).slots()) ==> {
            &&& is_faithful(final(cache).slots())
            &&& r is Some == markdown_blocks(source@, true) is Some
            &&& r is Some ==> Some(trees((*(r->0))@)) == markdown_blocks(source@, true)
        },
        final(cache).slots() == after_parse(old(cache).slots(), source@, old(cache).clock as int),
{
    if let Some(hit) = cache_get(cache, source) {
        return Some(hit);
    }
    match parse_page(source) {
        Some(kept) => {
            let mine = share(&kept);
            cache.insert(source, mine);
            Some(kept)
        },
        None => None,
    }
}

/// Parses `source` without a cache. A host that shares one cache among threads
/// parses so between a [`cache_get`] and an [`ParseCache::insert`], with the
/// cache free for others.
pub fn parse_page(source: &str) -> (r: Option<Arc<Vec<DocNode>>>)
    ensures
        r is Some == markdown_blocks(source@, true) is Some,
        r is Some ==> Some(trees((*(r->0))@)) == markdown_blocks(source@, true),
{
    match parse_blocks(source, true) {
        Some(blocks) => Some(Arc::new(blocks)),
        None => None,
    }
}

/// The parse that showing a page may do: what is kept, or a parse that is
/// cheap. `None` asks for the plain text until a [`warm_parse`]
/// has run.
pub fn parse_for_render(cache: &mut ParseCache, source: &str) -> (r: Option<Arc<Vec<DocNode>>>)
    requires
        old(cache).wf(),
        old(cache).clock < u64::MAX - 2,
    ensures
        final(cache).wf(),
        is_faithful(old(cache).slots()) ==> {
            &&& is_faithful(final(cache).slots())
            &&& r is Some == (markdown_blocks(source@, true) is Some && (holds(
                old(cache).slots(),
                source@,
            ) || is_cheap(source@)))
            &&& r is Some ==> Some(trees((*(r->0))@)) == markdown_blocks(source@, true)
        },
        !holds(old(cache).slots(), source@) && !is_cheap(source@) ==> r is None,
        final(cache).slots() == after_frame(
            old(cache).slots(),
            source@,
            old(cache).clock as int,
        ),
        final(cache).clock == clock_after_frame(
            old(cache).slots(),
            source@,
            old(cache).clock as int,
        ),
{
    if let Some(hit) = cache_get(cache, source) {
        return Some(hit);
    }
    if is_cheap_to_parse(source) {
        parse_cached(cache, source)
    } else {
        None
    }
}

/// Parses the page of `source` into the cache, unless it is there.
pub fn warm_parse(cache: &mut ParseCache, source: &str)
    requires
        old(cache).wf(),
        old(cache).clock < u64::MAX - 1,
    ensures
        final(cache).wf(),
        is_faithful(old(cache).slots()) ==> is_faithful(final(cache).slots()),
        final(cache).slots() == after_parse(
            old(cache).slots(),
            normalized(source@),
            old(cache).clock as int,
        ),
        final(cache).clock == clock_after_parse(
            old(cache).slots(),
            normalized(source@),
            old(cache).clock as int,
        ),
        holds(final(cache).slots(), normalized(source@)) == (holds(
            old(cache).slots(),
            normalized(source@),
        ) || markdown_blocks(normalized(source@), true) is Some),
{
    let ghost before = cache.slots();
    let ghost key = normalized(source@);
    let text = normalize_math_fences(source);
    proof {
        let clock = cache.clock as int;
        lemma_slot_from(before, key, 0);
        if holds(before, key) {
            let i = slot_from(before, key, 0)->0;
            lemma_holds(touched(before, i, clock + 1), key, i);
        }
        if let Some(blocks) = markdown_blocks(key, true) {
            lemma_looked_up(before, key, clock);
            lemma_inserted(before, key, blocks, clock + 1);
        }
    }
    let _ = parse_cached(cache, cow_text(&text));
}

/// Whether showing the page of `source` would wait for a parse: it is not
/// cheap and not kept.
pub fn needs_warm(cache: &mut ParseCache, source: &str) -> (r: bool)
    requires
        old(cache).wf(),
        old(cache).clock < u64::MAX,
    ensures
        final(cache).wf(),
        r == is_cold(old(cache).slots(), normalized(source@)),
        is_faithful(old(cache).slots()) ==> is_faithful(final(cache).slots()),
        holds(final(cache).slots(), normalized(source@)) == holds(
            old(cache).slots(),
            normalized(source@),
        ),
        final(cache).slots() == if is_cheap(normalized(source@)) {
            old(cache).slots()
        } else {
            looked_up(old(cache).slots(), normalized(source@), old(cache).clock + 1)
        },
        final(cache).clock == if is_cheap(normalized(source@)) {
            old(cache).clock as int
        } else {
            old(cache).clock + 1
        },
{
    let ghost before = cache.slots();
    let ghost key = normalized(source@);
    let text = normalize_math_fences(source);
    if is_cheap_to_parse(cow_text(&text)) {
        return false;
    }
    proof {
        lemma_slot_from(before, key, 0);
        if holds(before, key) {
            let i = slot_from(before, key, 0)->0;
            lemma_holds(touched(before, i, cache.clock + 1), key, i);
        }
    }
    cache_get(cache, cow_text(&text)).is_none()
}

// --- Laws ---

/// A page that was just looked up outlives the insertion of another.
pub proof fn law_touched_survives(
    s: Seq<Slot>,
    key: Seq<char>,
    other: Seq<char>,
    blocks: Seq<Tree>,
    clock: int,
)
    requires
        0 <= clock,
        is_orderly(s, clock),
        holds(s, key),
    ensures
        holds(inserted(looked_up(s, key, clock + 1), other, blocks, clock + 2), key),
{
    lemma_slot_from(s, key, 0);
    let i = slot_from(s, key, 0)->0;
    let t = looked_up(s, key, clock + 1);
    lemma_looked_up(s, key, clock);
    assert(t[i].key == key && t[i].used == clock + 1);
    let r = with_room(t);
    let k = if t.len() >= PARSE_CACHE_CAP {
        let o = oldest_upto(t, t.len() as int);
        lemma_oldest(t, t.len() as int);
        let x: int = if i == 0 {
            1
        } else {
            0
        };
        assert(s[x].used <= clock);
        assert(t[x].used <= clock);
        assert(o != i);
        if i < o {
            i
        } else {
            i - 1
        }
    } else {
        i
    };
    assert(r[k].key == key);
    let done = inserted(t, other, blocks, clock + 2);
    lemma_slot_from(r, other, 0);
    match slot_from(r, other, 0) {
        Some(j) => {
            if j == k {
                lemma_holds(done, key, k);
            } else {
                lemma_holds(done, key, k);
            }
        },
        None => {
            lemma_holds(done, key, k);
        },
    }
}

/// Warming is enough: a page that parses is kept once it was asked for, so the
/// next frame finds it, and it is what the page parses into.
pub proof fn law_warm_page_is_kept(s: Seq<Slot>, key: Seq<char>, clock: int)
    requires
        0 <= clock,
        is_orderly(s, clock),
        is_faithful(s),
        markdown_blocks(key, true) is Some,
    ensures
        ({
            let t = after_parse(s, key, clock);
            &&& holds(t, key)
            &&& Some(t[slot_from(t, key, 0)->0].blocks) == markdown_blocks(key, true)
        }),
{
    let t = after_parse(s, key, clock);
    lemma_slot_from(s, key, 0);
    if holds(s, key) {
        let i = slot_from(s, key, 0)->0;
        lemma_holds(t, key, i);
        lemma_slot_from(t, key, 0);
        let j = slot_from(t, key, 0)->0;
        assert(s[j].blocks == t[j].blocks && s[j].key == t[j].key);
    } else {
        let blocks = markdown_blocks(key, true)->0;
        assert forall|i: int| 0 <= i < s.len() implies 0 <= (#[trigger] s[i]).used <= clock
            + 1 by {}
        lemma_inserted(s, key, blocks, clock + 1);
        lemma_slot_from(t, key, 0);
    }
}

/// A page that was warmed needs no warming as long as it is kept, whatever came
/// in between, and a page that is cheap never does.
pub proof fn law_warm_page_needs_no_warming(
    s: Seq<Slot>,
    key: Seq<char>,
    clock: int,
    later: Seq<Slot>,
)
    requires
        0 <= clock,
        is_orderly(s, clock),
    ensures
        is_faithful(s) && markdown_blocks(key, true) is Some ==> !is_cold(
            after_parse(s, key, clock),
            key,
        ),
        holds(later, key) || is_cheap(key) ==> !is_cold(later, key),
{
    if is_faithful(s) && markdown_blocks(key, true) is Some {
        law_warm_page_is_kept(s, key, clock);
    }
}

/// An insertion drops no page but the one used least recently.
pub proof fn law_only_the_oldest_leaves(
    s: Seq<Slot>,
    key: Seq<char>,
    blocks: Seq<Tree>,
    clock: int,
    i: int,
)
    requires
        0 <= clock,
        is_orderly(s, clock),
        0 <= i < s.len(),
        !holds(inserted(s, key, blocks, clock + 1), s[i].key),
    ensures
        s.len() == PARSE_CACHE_CAP,
        forall|k: int| 0 <= k < s.len() ==> s[i].used <= (#[trigger] s[k]).used,
{
    let done = inserted(s, key, blocks, clock + 1);
    let r = with_room(s);
    lemma_slot_from(r, key, 0);
    if s.len() < PARSE_CACHE_CAP {
        assert(done[i].key == s[i].key);
        lemma_holds(done, s[i].key, i);
    } else {
        let o = oldest_upto(s, s.len() as int);
        lemma_oldest(s, s.len() as int);
        if i != o {
            let k = if i < o {
                i
            } else {
                i - 1
            };
            assert(r[k] == s[i]);
            assert(done[k].key == s[i].key);
            lemma_holds(done, s[i].key, k);
        }
    }
}

} // verus!
