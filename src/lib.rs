//! A registry of interned texts. Each distinct content is stored once, in an
//! entry that counts its live handles; a handle is a cheap reference to an
//! entry, and two handles are identical exactly when their contents are equal.
//! The registry is an explicit value: callers that share it between threads
//! hold it behind one lock, which then guards the list and the counts alike.
mod g_norep;

pub use crate::g_norep::{
    acquired, count_at, fingerprint, hash_state, holds_slot, holds_text, interned, model_ok, ohash,
    released, room_for, text_at, with_count, EntryModel, GListNodo, GStrInterner, CHAR_COUSIN,
    CHAR_S,
};

use vstd::prelude::*;

verus! {

/// A value that can be interned: it shows its text for the search and
/// gives it up as an owned `String` when a new entry is made.
pub trait StringInfo: Sized {
    /// The text this value stands for.
    spec fn text_of(&self) -> Seq<char>;

    /// The text, borrowed, for looking up an existing entry.
    fn get_str_ref(&self) -> (r: &str)
        ensures
            r@ == self.text_of(),
    ;

    /// The text, owned, for storing in a new entry.
    fn get_str(self) -> (r: String)
        ensures
            r@ == self.text_of(),
    ;
}

impl StringInfo for String {
    open spec fn text_of(&self) -> Seq<char> {
        self@
    }

    fn get_str_ref(&self) -> (r: &str) {
        self.as_str()
    }

    fn get_str(self) -> (r: String) {
        self
    }
}

impl<'a> StringInfo for &'a String {
    open spec fn text_of(&self) -> Seq<char> {
        (**self)@
    }

    fn get_str_ref(&self) -> (r: &str) {
        (**self).as_str()
    }

    fn get_str(self) -> (r: String) {
        self.clone()
    }
}

impl<'a> StringInfo for &'a str {
    open spec fn text_of(&self) -> Seq<char> {
        (**self)@
    }

    fn get_str_ref(&self) -> (r: &str) {
        *self
    }

    fn get_str(self) -> (r: String) {
        self.to_owned()
    }
}

/// A handle to an interned text: it names the registry entry that holds the
/// text. Handles compare by identity, which for interned texts is the same
/// as comparing contents.
pub struct GStr {
    value: usize,
}

impl GStr {
    /// The slot of the entry this handle refers to.
    pub closed spec fn slot(&self) -> usize {
        self.value
    }

    /// Interns `strn`: returns a handle to the entry already holding its
    /// text, counting one more handle on it, or else stores the text in a
    /// new entry with one handle, at the end of the list.
    pub fn new<T: StringInfo>(reg: &mut GListNodo, strn: T) -> (r: GStr)
        requires
            old(reg).wf(),
            room_for(old(reg)@, strn.text_of()),
        ensures
            final(reg).wf(),
            interned(old(reg)@, strn.text_of(), r.slot(), final(reg)@),
            holds_slot(final(reg)@, r.slot()),
            text_at(final(reg)@, r.slot()) == strn.text_of(),
    {
        let ghost t = strn.text_of();
        let mut len: usize = 0;
        let hash: u32 = ohash(strn.get_str_ref(), &mut len);
        match reg.search_value(strn.get_str_ref(), len, hash) {
            Some(slot) => {
                proof {
                    reg.lemma_model_ok();
                }
                reg.acquire(slot);
                let r = GStr { value: slot };
                proof {
                    lemma_acquired_holds(old(reg)@, slot, reg@);
                }
                r
            },
            None => {
                let slot: usize = reg.create_gstr(strn.get_str(), len, hash);
                proof {
                    reg.lemma_model_ok();
                    assert(reg@[reg@.len() - 1].slot == slot);
                }
                GStr { value: slot }
            },
        }
    }

    /// The number of characters (Unicode scalar values) of the text.
    pub fn chars_count(&self, reg: &GListNodo) -> (r: usize)
        requires
            reg.wf(),
            holds_slot(reg@, self.slot()),
        ensures
            r == text_at(reg@, self.slot()).len(),
    {
        reg.length(self.value)
    }

    /// The text this handle refers to.
    pub fn as_str<'a>(&self, reg: &'a GListNodo) -> (r: &'a str)
        requires
            reg.wf(),
            holds_slot(reg@, self.slot()),
        ensures
            r@ == text_at(reg@, self.slot()),
    {
        reg.text(self.value)
    }

    /// The number of live handles to this handle's entry.
    pub fn live_count(&self, reg: &GListNodo) -> (r: usize)
        requires
            reg.wf(),
            holds_slot(reg@, self.slot()),
        ensures
            r == count_at(reg@, self.slot()),
    {
        reg.count(self.value)
    }

    /// A second handle to the same entry, counted on it; the text is not
    /// copied.
    pub fn duplicate(&self, reg: &mut GListNodo) -> (r: GStr)
        requires
            old(reg).wf(),
            holds_slot(old(reg)@, self.slot()),
            count_at(old(reg)@, self.slot()) < usize::MAX,
        ensures
            final(reg).wf(),
            r.slot() == self.slot(),
            acquired(old(reg)@, self.slot(), final(reg)@),
    {
        reg.acquire(self.value);
        GStr { value: self.value }
    }

    /// Gives up this handle: its entry counts one handle fewer, and is
    /// unlinked and freed when this was the last one.
    pub fn destroy(self, reg: &mut GListNodo)
        requires
            old(reg).wf(),
            holds_slot(old(reg)@, self.slot()),
        ensures
            final(reg).wf(),
            released(old(reg)@, self.slot(), final(reg)@),
    {
        reg.release(self.value);
    }
}

impl PartialEq for GStr {
    /// Identity: both handles refer to the same entry.
    fn eq(&self, other: &GStr) -> (r: bool) {
        self.value == other.value
    }
}

impl vstd::std_specs::cmp::PartialEqSpecImpl for GStr {
    open spec fn obeys_eq_spec() -> bool {
        true
    }

    open spec fn eq_spec(&self, other: &GStr) -> bool {
        self.slot() == other.slot()
    }
}

/// An entry that gains a handle keeps its slot and its content.
proof fn lemma_acquired_holds(old: Seq<EntryModel>, slot: usize, new: Seq<EntryModel>)
    requires
        model_ok(old),
        holds_slot(old, slot),
        acquired(old, slot, new),
    ensures
        holds_slot(new, slot),
        text_at(new, slot) == text_at(old, slot),
        count_at(new, slot) == count_at(old, slot) + 1,
        model_ok(new),
{
    let i = choose|i: int| 0 <= i < old.len() && (#[trigger] old[i]).slot == slot;
    assert(new[i].slot == slot);
    assert(model_ok(new));
}

/// What the registry shows of the entry at position `i`, looked up by its slot.
proof fn lemma_entry_at(v: Seq<EntryModel>, i: int)
    requires
        model_ok(v),
        0 <= i < v.len(),
    ensures
        holds_slot(v, v[i].slot),
        text_at(v, v[i].slot) == v[i].text,
        count_at(v, v[i].slot) == v[i].count,
{
    assert(v[i].slot == v[i].slot);
}

/// An entry that loses a handle keeps its slot and content unless it was its
/// last one; either way what the registry shows stays consistent.
proof fn lemma_released_holds(old: Seq<EntryModel>, slot: usize, new: Seq<EntryModel>)
    requires
        model_ok(old),
        holds_slot(old, slot),
        released(old, slot, new),
    ensures
        model_ok(new),
        count_at(old, slot) == 1 ==> !holds_slot(new, slot),
        count_at(old, slot) > 1 ==> holds_slot(new, slot) && text_at(new, slot) == text_at(old, slot)
            && count_at(new, slot) == count_at(old, slot) - 1,
{
    let i = choose|i: int| 0 <= i < old.len() && (#[trigger] old[i]).slot == slot;
    lemma_entry_at(old, i);
    if old[i].count == 1 {
        assert forall|a: int, b: int|
            0 <= a < new.len() && 0 <= b < new.len() && a != b implies (#[trigger] new[a]).slot != (
            #[trigger] new[b]).slot && new[a].text != new[b].text by {
            let oa = if a < i { a } else { a + 1 };
            let ob = if b < i { b } else { b + 1 };
            assert(new[a] == old[oa] && new[b] == old[ob]);
        }
        assert forall|a: int| 0 <= a < new.len() implies (#[trigger] new[a]).count >= 1 by {
            let oa = if a < i { a } else { a + 1 };
            assert(new[a] == old[oa]);
        }
        if holds_slot(new, slot) {
            let a = choose|a: int| 0 <= a < new.len() && (#[trigger] new[a]).slot == slot;
            let oa = if a < i { a } else { a + 1 };
            assert(new[a] == old[oa]);
        }
    } else {
        assert(new[i].slot == slot);
        assert(model_ok(new));
        lemma_entry_at(new, i);
    }
}

/// Two live handles of one registry are identical exactly when their
/// entries hold equal texts.
pub proof fn lemma_identity_is_content(v: Seq<EntryModel>, a: GStr, b: GStr)
    requires
        model_ok(v),
        holds_slot(v, a.slot()),
        holds_slot(v, b.slot()),
    ensures
        (a == b) <==> (text_at(v, a.slot()) == text_at(v, b.slot())),
{
    let i = choose|i: int| 0 <= i < v.len() && (#[trigger] v[i]).slot == a.slot();
    let j = choose|j: int| 0 <= j < v.len() && (#[trigger] v[j]).slot == b.slot();
    lemma_entry_at(v, i);
    lemma_entry_at(v, j);
}

/// Interning a text that a live handle already refers to, at any later
/// point, gives a handle identical to it, and the registry still holds
/// exactly one entry with that text.
pub proof fn lemma_dedup(before: Seq<EntryModel>, h: GStr, t: Seq<char>, r: GStr, after: Seq<EntryModel>)
    requires
        model_ok(before),
        holds_slot(before, h.slot()),
        text_at(before, h.slot()) == t,
        interned(before, t, r.slot(), after),
    ensures
        r == h,
        holds_text(after, t),
        forall|i: int, j: int|
            0 <= i < after.len() && 0 <= j < after.len() && (#[trigger] after[i]).text == t && (#[trigger] after[j]).text
                == t ==> i == j,
{
    let i = choose|i: int| 0 <= i < before.len() && (#[trigger] before[i]).slot == h.slot();
    lemma_entry_at(before, i);
    assert(before[i].text == t);
    assert(r.slot() == h.slot());
    lemma_acquired_holds(before, h.slot(), after);
    assert(after[i].text == t);
}

/// Interning a text other than the one a live handle refers to never gives a
/// handle identical to it.
pub proof fn lemma_distinct(before: Seq<EntryModel>, h: GStr, t: Seq<char>, r: GStr, after: Seq<EntryModel>)
    requires
        model_ok(before),
        holds_slot(before, h.slot()),
        text_at(before, h.slot()) != t,
        interned(before, t, r.slot(), after),
    ensures
        r != h,
{
    let i = choose|i: int| 0 <= i < before.len() && (#[trigger] before[i]).slot == h.slot();
    lemma_entry_at(before, i);
    if holds_text(before, t) {
        let j = choose|j: int| 0 <= j < before.len() && (#[trigger] before[j]).text == t;
        assert(before[j].slot == r.slot());
    }
}

/// A fresh handle duplicated `k` times, one duplicate after another, leaves
/// its entry with `k + 1` live handles.
pub proof fn lemma_duplicates(states: Seq<Seq<EntryModel>>, h: GStr, k: nat)
    requires
        states.len() == k + 1,
        model_ok(states[0]),
        holds_slot(states[0], h.slot()),
        count_at(states[0], h.slot()) == 1,
        forall|j: int| 0 <= j < k ==> acquired(#[trigger] states[j], h.slot(), states[j + 1]),
    ensures
        model_ok(states[k as int]),
        holds_slot(states[k as int], h.slot()),
        count_at(states[k as int], h.slot()) == k + 1,
    decreases k,
{
    if k > 0 {
        let k1 = (k - 1) as nat;
        lemma_duplicates(states.take(k as int), h, k1);
        assert(states.take(k as int)[k1 as int] == states[k1 as int]);
        assert(acquired(states[k1 as int], h.slot(), states[k as int]));
        lemma_acquired_holds(states[k1 as int], h.slot(), states[k as int]);
    }
}

/// An entry with `n` live handles stays in the registry through the first
/// `n - 1` releases, one handle fewer each time, and leaves it at the `n`-th.
pub proof fn lemma_releases(states: Seq<Seq<EntryModel>>, h: GStr, n: nat)
    requires
        n >= 1,
        states.len() == n + 1,
        model_ok(states[0]),
        holds_slot(states[0], h.slot()),
        count_at(states[0], h.slot()) == n,
        forall|j: int| 0 <= j < n ==> released(#[trigger] states[j], h.slot(), states[j + 1]),
    ensures
        forall|j: int|
            0 <= j < n ==> holds_slot(#[trigger] states[j], h.slot()) && count_at(states[j], h.slot()) == n - j,
        !holds_slot(states[n as int], h.slot()),
        model_ok(states[n as int]),
    decreases n,
{
    if n == 1 {
        lemma_released_holds(states[0], h.slot(), states[1]);
    } else {
        lemma_released_holds(states[0], h.slot(), states[1]);
        let rest = states.drop_first();
        assert forall|j: int| 0 <= j < n - 1 implies released(#[trigger] rest[j], h.slot(), rest[j + 1]) by {
            assert(rest[j] == states[j + 1] && rest[j + 1] == states[j + 2]);
            assert(released(states[j + 1], h.slot(), states[j + 2]));
        }
        lemma_releases(rest, h, (n - 1) as nat);
        assert forall|j: int|
            0 <= j < n implies holds_slot(#[trigger] states[j], h.slot()) && count_at(states[j], h.slot()) == n - j by {
            if j > 0 {
                assert(states[j] == rest[j - 1]);
            }
        }
        assert(states[n as int] == rest[n - 1]);
    }
}

/// Interning a text that no entry holds and then giving up that only handle
/// leaves the registry as it was; interning the text once more then makes a
/// new entry with one handle, and the registry grows back to the same size.
pub proof fn lemma_reuse(
    v0: Seq<EntryModel>,
    t: Seq<char>,
    first: GStr,
    v1: Seq<EntryModel>,
    v2: Seq<EntryModel>,
    second: GStr,
    v3: Seq<EntryModel>,
)
    requires
        model_ok(v0),
        !holds_text(v0, t),
        interned(v0, t, first.slot(), v1),
        released(v1, first.slot(), v2),
        interned(v2, t, second.slot(), v3),
    ensures
        v2 == v0,
        !holds_text(v2, t),
        v3 == v0.push(EntryModel { slot: second.slot(), text: t, count: 1 }),
        v3.len() == v1.len(),
{
    let last = v0.len() as int;
    assert(v1[last].slot == first.slot());
    assert(v1.remove(last) =~= v0);
}

/// The fingerprint depends on the characters alone: equal texts always get
/// equal fingerprints and character counts.
pub proof fn lemma_hash_deterministic(a: Seq<char>, b: Seq<char>)
    requires
        a == b,
    ensures
        fingerprint(a) == fingerprint(b),
        a.len() == b.len(),
{
}

} // verus!
