use vstd::prelude::*;

verus! {

broadcast use vstd::string::axiom_spec_iter;

/// Prime that reduces the running hash to the final fingerprint.
pub const CHAR_COUSIN: u32 = 486187739;

/// Multiplier applied to the running hash before each character.
pub const CHAR_S: u32 = 31;

/// Running hash over the characters of `s`, before the final reduction:
/// for the n-th character `c` (counting from 1) the state becomes
/// `(h * 31 + c) * n`, every step wrapping at 32 bits.
pub open spec fn hash_state(s: Seq<char>) -> u32
    decreases s.len(),
{
    if s.len() == 0 {
        0
    } else {
        let prev = hash_state(s.drop_last());
        prev.wrapping_mul(CHAR_S).wrapping_add(s.last() as u32).wrapping_mul(s.len() as u32)
    }
}

/// The fingerprint of a text: its running hash reduced modulo `CHAR_COUSIN`.
pub open spec fn fingerprint(s: Seq<char>) -> u32 {
    (hash_state(s) % CHAR_COUSIN) as u32
}

/// A text never has more characters than bytes in its UTF-8 encoding.
proof fn lemma_encoding_len(s: Seq<char>)
    ensures
        vstd::utf8::encode_utf8(s).len() >= s.len(),
    decreases s.len(),
{
    if s.len() > 0 {
        lemma_encoding_len(s.drop_first());
    }
}

/// Computes the fingerprint of `c` and stores its character count in `mlen`.
pub fn ohash(c: &str, mlen: &mut usize) -> (r: u32)
    ensures
        r == fingerprint(c@),
        *final(mlen) == c@.len(),
{
    let bytes = c.as_bytes();
    proof {
        lemma_encoding_len(c@);
        assert(bytes@.len() == vstd::slice::spec_slice_len(bytes));
    }
    let mut hash: u32 = 0;
    let mut len: usize = 0;
    for ch in it: c.chars()
        invariant
            len == it.index(),
            it.seq() == c@,
            c@.len() <= usize::MAX,
            hash == hash_state(c@.take(len as int)),
    {
        assert(c@.take(len + 1).drop_last() == c@.take(len as int));
        len += 1;
        let code: u32 = ch as u32;
        #[verifier::truncate]
        let step: u32 = len as u32;
        hash = hash.wrapping_mul(CHAR_S).wrapping_add(code).wrapping_mul(step);
    }
    assert(c@.take(len as int) == c@);
    *mlen = len;
    hash % CHAR_COUSIN
}

/// What the registry shows of one live entry: where it is stored (the
/// identity that handles refer to), its content, and its live-handle count.
pub struct EntryModel {
    pub slot: usize,
    pub text: Seq<char>,
    pub count: nat,
}

/// The entry `e` with its live-handle count replaced by `c`.
pub open spec fn with_count(e: EntryModel, c: nat) -> EntryModel {
    EntryModel { slot: e.slot, text: e.text, count: c }
}

/// Some live entry is stored at `slot`.
pub open spec fn holds_slot(v: Seq<EntryModel>, slot: usize) -> bool {
    exists|i: int| 0 <= i < v.len() && (#[trigger] v[i]).slot == slot
}

/// Some live entry holds the content `t`.
pub open spec fn holds_text(v: Seq<EntryModel>, t: Seq<char>) -> bool {
    exists|i: int| 0 <= i < v.len() && (#[trigger] v[i]).text == t
}

/// The content of the live entry stored at `slot`.
pub open spec fn text_at(v: Seq<EntryModel>, slot: usize) -> Seq<char> {
    v[choose|i: int| 0 <= i < v.len() && (#[trigger] v[i]).slot == slot].text
}

/// The live-handle count of the entry stored at `slot`, or 0 where none is.
pub open spec fn count_at(v: Seq<EntryModel>, slot: usize) -> nat {
    if holds_slot(v, slot) {
        v[choose|i: int| 0 <= i < v.len() && (#[trigger] v[i]).slot == slot].count
    } else {
        0
    }
}

/// The live entries are stored at distinct slots, hold pairwise distinct
/// contents, and each has at least one live handle.
pub open spec fn model_ok(v: Seq<EntryModel>) -> bool {
    &&& forall|i: int, j: int|
        0 <= i < v.len() && 0 <= j < v.len() && i != j ==> (#[trigger] v[i]).slot != (#[trigger] v[j]).slot
    &&& forall|i: int, j: int|
        0 <= i < v.len() && 0 <= j < v.len() && i != j ==> (#[trigger] v[i]).text != (#[trigger] v[j]).text
    &&& forall|i: int| 0 <= i < v.len() ==> (#[trigger] v[i]).count >= 1
}

/// The entry holding `t`, if any, can take one more live handle.
pub open spec fn room_for(v: Seq<EntryModel>, t: Seq<char>) -> bool {
    forall|i: int| 0 <= i < v.len() && (#[trigger] v[i]).text == t ==> v[i].count < usize::MAX
}

/// `new` is `old` with one more live handle on the entry at `slot`.
pub open spec fn acquired(old: Seq<EntryModel>, slot: usize, new: Seq<EntryModel>) -> bool {
    forall|i: int|
        0 <= i < old.len() && (#[trigger] old[i]).slot == slot ==> new == old.update(
            i,
            with_count(old[i], old[i].count + 1),
        )
}

/// `new` is `old` with one live handle fewer on the entry at `slot`; the
/// entry leaves the list when that was its last handle.
pub open spec fn released(old: Seq<EntryModel>, slot: usize, new: Seq<EntryModel>) -> bool {
    forall|i: int|
        0 <= i < old.len() && (#[trigger] old[i]).slot == slot ==> if old[i].count == 1 {
            new == old.remove(i)
        } else {
            new == old.update(i, with_count(old[i], (old[i].count - 1) as nat))
        }
}

/// Interning `t` into `old` gave `new` and a handle to `slot`: an entry
/// already holding `t` gains a handle, else a new entry with one handle is
/// appended at the end of the list, at a slot that no live entry uses.
pub open spec fn interned(old: Seq<EntryModel>, t: Seq<char>, slot: usize, new: Seq<EntryModel>) -> bool {
    if holds_text(old, t) {
        &&& forall|i: int| 0 <= i < old.len() && (#[trigger] old[i]).text == t ==> old[i].slot == slot
        &&& acquired(old, slot, new)
    } else {
        &&& !holds_slot(old, slot)
        &&& new == old.push(EntryModel { slot, text: t, count: 1 })
    }
}

/// One interned text: the single stored copy of its content, its character
/// count and fingerprint, the number of live handles to it, and the slots of
/// its neighbours in the registry's list.
pub struct GStrInterner {
    value: String,
    len: usize,
    count: usize,
    hash: u32,
    next: Option<usize>,
    prev: Option<usize>,
}

impl GStrInterner {
    /// The stored content.
    pub closed spec fn text(&self) -> Seq<char> {
        self.value@
    }

    /// The cached character count.
    pub closed spec fn length(&self) -> usize {
        self.len
    }

    /// The cached fingerprint.
    pub closed spec fn hash_value(&self) -> u32 {
        self.hash
    }

    /// Whether this entry matches a text with fingerprint `hash`, `len`
    /// characters and content `strn`: the fingerprint and the count are
    /// cheap filters, the content decides.
    pub fn compare(&self, hash: u32, len: usize, strn: &str) -> (r: bool)
        ensures
            r == (self.hash_value() == hash && self.length() == len && self.text() == strn@),
    {
        self.hash == hash && self.len == len && str_eq(self.value.as_str(), strn)
    }
}

/// Relies on `<str as PartialEq>::eq`: two string slices are equal exactly
/// when they hold the same characters.
#[verifier::external_body]
fn str_eq(a: &str, b: &str) -> (r: bool)
    ensures
        r == (a@ == b@),
{
    a == b
}

/// The registry of interned texts: entries live in slots of an arena and
/// form a doubly linked list, in order of insertion, through slot indices.
/// Vacated slots are kept for reuse.
pub struct GListNodo {
    nodes: Vec<Option<GStrInterner>>,
    free: Vec<usize>,
    begin: Option<usize>,
    end: Option<usize>,
    order: Ghost<Seq<usize>>,
}

impl View for GListNodo {
    type V = Seq<EntryModel>;

    closed spec fn view(&self) -> Seq<EntryModel> {
        Seq::new(
            self.order@.len(),
            |i: int|
                EntryModel {
                    slot: self.order@[i],
                    text: self.node(self.order@[i]).value@,
                    count: self.node(self.order@[i]).count as nat,
                },
        )
    }
}

/// An entry's cached count and fingerprint match its content, and it has a
/// live handle.
spec fn entry_ok(n: GStrInterner) -> bool {
    &&& n.len == n.value@.len()
    &&& n.hash == fingerprint(n.value@)
    &&& n.count >= 1
}

impl GListNodo {
    spec fn node(&self, slot: usize) -> GStrInterner {
        self.nodes@[slot as int]->Some_0
    }

    spec fn prev_of(&self, i: int) -> Option<usize> {
        if i == 0 {
            None
        } else {
            Some(self.order@[i - 1])
        }
    }

    spec fn next_of(&self, i: int) -> Option<usize> {
        if i + 1 == self.order@.len() {
            None
        } else {
            Some(self.order@[i + 1])
        }
    }

    spec fn links_ok(&self) -> bool {
        let ord = self.order@;
        &&& forall|i: int|
            0 <= i < ord.len() ==> (#[trigger] ord[i]) < self.nodes@.len() && self.nodes@[ord[i] as int] is Some
        &&& forall|i: int, j: int| 0 <= i < j < ord.len() ==> (#[trigger] ord[i]) != (#[trigger] ord[j])
        &&& forall|s: int|
            0 <= s < self.nodes@.len() && (#[trigger] self.nodes@[s]) is Some ==> ord.contains(s as usize)
        &&& forall|i: int|
            0 <= i < ord.len() ==> (#[trigger] self.node(ord[i])).prev == self.prev_of(i) && self.node(
                ord[i],
            ).next == self.next_of(i)
        &&& self.begin == (if ord.len() == 0 { None } else { Some(ord[0]) })
        &&& self.end == (if ord.len() == 0 { None } else { Some(ord.last()) })
    }

    spec fn entries_ok(&self) -> bool {
        let ord = self.order@;
        &&& forall|i: int| 0 <= i < ord.len() ==> entry_ok(#[trigger] self.node(ord[i]))
        &&& forall|i: int, j: int|
            0 <= i < ord.len() && 0 <= j < ord.len() && i != j ==> (#[trigger] self.node(ord[i])).value@
                != (#[trigger] self.node(ord[j])).value@
    }

    spec fn free_ok(&self) -> bool {
        let f = self.free@;
        &&& forall|k: int|
            0 <= k < f.len() ==> (#[trigger] f[k]) < self.nodes@.len() && self.nodes@[f[k] as int] is None
        &&& forall|k: int, l: int| 0 <= k < l < f.len() ==> (#[trigger] f[k]) != (#[trigger] f[l])
    }

    /// The registry's internal structure is consistent: the list runs through
    /// exactly the occupied slots, its links agree with its order, each
    /// entry's cached count and fingerprint match its content, and vacated
    /// slots are empty.
    pub closed spec fn wf(&self) -> bool {
        &&& self.links_ok()
        &&& self.entries_ok()
        &&& self.free_ok()
    }

    /// What a consistent registry shows: entries at distinct slots, with
    /// distinct contents, each with a live handle.
    pub proof fn lemma_model_ok(&self)
        requires
            self.wf(),
        ensures
            model_ok(self@),
    {
        let v = self@;
        assert forall|i: int, j: int| 0 <= i < v.len() && 0 <= j < v.len() && i != j implies
            (#[trigger] v[i]).slot != (#[trigger] v[j]).slot by {
            if i < j {
                assert(self.order@[i] != self.order@[j]);
            } else {
                assert(self.order@[j] != self.order@[i]);
            }
        }
        assert forall|i: int, j: int| 0 <= i < v.len() && 0 <= j < v.len() && i != j implies
            (#[trigger] v[i]).text != (#[trigger] v[j]).text by {
            assert(self.node(self.order@[i]).value@ != self.node(self.order@[j]).value@);
        }
        assert forall|i: int| 0 <= i < v.len() implies (#[trigger] v[i]).count >= 1 by {
            assert(self.node(self.order@[i]).count >= 1);
        }
    }

    /// An empty registry.
    pub fn new() -> (r: GListNodo)
        ensures
            r.wf(),
            r@ == Seq::<EntryModel>::empty(),
    {
        let r = GListNodo {
            nodes: Vec::new(),
            free: Vec::new(),
            begin: None,
            end: None,
            order: Ghost(Seq::empty()),
        };
        assert(r@ =~= Seq::<EntryModel>::empty());
        r
    }

    /// Walks the list from its first entry and returns the slot of the entry
    /// holding `strn`, whose character count is `len` and fingerprint `hash`.
    pub fn search_value(&self, strn: &str, len: usize, hash: u32) -> (r: Option<usize>)
        requires
            self.wf(),
            len == strn@.len(),
            hash == fingerprint(strn@),
        ensures
            r is None <==> !holds_text(self@, strn@),
            r matches Some(slot) ==> holds_slot(self@, slot) && text_at(self@, slot) == strn@,
    {
        let ghost ord = self.order@;
        let ghost mut k: int = 0;
        let mut cursor: Option<usize> = self.begin;
        proof {
            self.lemma_model_ok();
        }
        while cursor.is_some()
            invariant
                self.wf(),
                model_ok(self@),
                len == strn@.len(),
                hash == fingerprint(strn@),
                ord == self.order@,
                0 <= k <= ord.len(),
                cursor == (if k < ord.len() { Some(ord[k]) } else { None::<usize> }),
                forall|j: int| 0 <= j < k ==> (#[trigger] self@[j]).text != strn@,
            decreases ord.len() - k,
        {
            let slot: usize = cursor.unwrap();
            let node = self.nodes[slot].as_ref().unwrap();
            assert(self.node(ord[k]) == *node);
            if node.compare(hash, len, strn) {
                assert(self@[k].slot == slot);
                return Some(slot);
            }
            assert(node.hash == fingerprint(node.value@) && node.len == node.value@.len());
            cursor = node.next;
            proof {
                k = k + 1;
            }
        }
        proof {
            assert forall|i: int| 0 <= i < self@.len() implies (#[trigger] self@[i]).text != strn@ by {}
        }
        None
    }

    /// Moves `vstr` into a new entry with one live handle, appended at the
    /// end of the list, and returns its slot.
    pub fn create_gstr(&mut self, vstr: String, len: usize, hash: u32) -> (slot: usize)
        requires
            old(self).wf(),
            len == vstr@.len(),
            hash == fingerprint(vstr@),
            !holds_text(old(self)@, vstr@),
        ensures
            final(self).wf(),
            !holds_slot(old(self)@, slot),
            final(self)@ == old(self)@.push(EntryModel { slot, text: vstr@, count: 1 }),
    {
        let ghost ord = self.order@;
        let ghost old_self = *self;
        let ghost text = vstr@;
        let slot: usize = match self.free.pop() {
            Some(s) => s,
            None => {
                self.nodes.push(None);
                self.nodes.len() - 1
            },
        };
        assert(self.nodes@[slot as int] is None);
        assert(!ord.contains(slot));
        let prev = self.end;
        self.nodes[slot] = Some(GStrInterner { value: vstr, len, count: 1, hash, next: None, prev });
        if let Some(e) = prev {
            assert(ord.contains(e));
            assert(e != slot);
            match &mut self.nodes[e] {
                Some(n) => {
                    n.next = Some(slot);
                },
                None => {},
            }
        }
        if self.begin.is_none() {
            self.begin = Some(slot);
        }
        self.end = Some(slot);
        self.order = Ghost(ord.push(slot));
        proof {
            let nord = self.order@;
            assert forall|i: int| 0 <= i < ord.len() implies #[trigger] self.node(ord[i]) == (
            if i + 1 == ord.len() {
                GStrInterner { next: Some(slot), ..old_self.node(ord[i]) }
            } else {
                old_self.node(ord[i])
            }) by {}
            assert forall|s: int|
                0 <= s < self.nodes@.len() && (#[trigger] self.nodes@[s]) is Some implies nord.contains(
                s as usize,
            ) by {
                if s != slot {
                    assert(old_self.nodes@[s] is Some);
                    let j = choose|j: int| 0 <= j < ord.len() && ord[j] == s as usize;
                    assert(nord[j] == s as usize);
                } else {
                    assert(nord[ord.len() as int] == slot);
                }
            }
            assert forall|i: int|
                0 <= i < nord.len() implies (#[trigger] self.node(nord[i])).prev == self.prev_of(i)
                && self.node(nord[i]).next == self.next_of(i) by {
                if i < ord.len() {
                    assert(old_self.node(ord[i]).prev == old_self.prev_of(i));
                }
            }
            assert forall|i: int, j: int|
                0 <= i < nord.len() && 0 <= j < nord.len() && i != j implies (#[trigger] self.node(
                nord[i],
            )).value@ != (#[trigger] self.node(nord[j])).value@ by {
                if i < ord.len() && j < ord.len() {
                    assert(old_self.node(ord[i]).value@ != old_self.node(ord[j]).value@);
                } else if i < ord.len() {
                    assert(old_self@[i].text != text);
                } else {
                    assert(old_self@[j].text != text);
                }
            }
            assert forall|i: int| 0 <= i < nord.len() implies entry_ok(#[trigger] self.node(nord[i])) by {
                if i < ord.len() {
                    assert(entry_ok(old_self.node(ord[i])));
                }
            }
            assert forall|k: int| 0 <= k < self.free@.len() implies (#[trigger] self.free@[k])
                < self.nodes@.len() && self.nodes@[self.free@[k] as int] is None by {
                assert(old_self.free@[k] == self.free@[k]);
            }
            assert forall|i: int| 0 <= i < ord.len() implies (#[trigger] old_self@[i]).slot != slot by {}
            assert(self@ =~= old_self@.push(EntryModel { slot, text, count: 1 }));
        }
        slot
    }

    /// Position in the list of the entry stored at `slot`.
    spec fn position(&self, slot: usize) -> int {
        choose|i: int| 0 <= i < self.order@.len() && self.order@[i] == slot
    }

    proof fn lemma_position(&self, slot: usize)
        requires
            self.wf(),
            holds_slot(self@, slot),
        ensures
            0 <= self.position(slot) < self.order@.len(),
            self.order@[self.position(slot)] == slot,
            self@[self.position(slot)].slot == slot,
            forall|i: int| 0 <= i < self@.len() && (#[trigger] self@[i]).slot == slot ==> i == self.position(slot),
    {
        let j = choose|j: int| 0 <= j < self@.len() && (#[trigger] self@[j]).slot == slot;
        assert(self.order@[j] == slot);
        self.lemma_model_ok();
    }

    /// Unlinks the entry stored at `slot`, patching its neighbours' links or
    /// the list's ends, frees its content and keeps the slot for reuse.
    fn remove(&mut self, slot: usize)
        requires
            old(self).wf(),
            holds_slot(old(self)@, slot),
        ensures
            final(self).wf(),
            final(self)@ == old(self)@.remove(old(self).position(slot)),
    {
        let ghost ord = self.order@;
        let ghost old_self = *self;
        proof {
            self.lemma_position(slot);
        }
        let ghost p = self.position(slot);
        let node = self.nodes[slot].as_ref().unwrap();
        assert(*node == self.node(ord[p]));
        let prev = node.prev;
        let next = node.next;
        let ghost n0 = self.nodes@;
        match next {
            Some(nx) => {
                assert(nx == ord[p + 1]);
                assert(self.nodes@[nx as int] is Some);
                match &mut self.nodes[nx] {
                    Some(n) => {
                        n.prev = prev;
                    },
                    None => {},
                }
                assert(self.nodes@ == n0.update(nx as int, Some(GStrInterner { prev: prev, ..old_self.node(nx) })));
            },
            None => {
                self.end = prev;
            },
        }
        let ghost n1 = self.nodes@;
        match prev {
            Some(pv) => {
                assert(pv == ord[p - 1]);
                assert(next != Some(pv)) by {
                    if p + 1 < ord.len() {
                        assert(ord[p - 1] != ord[p + 1]);
                    }
                }
                assert(n1[pv as int] == n0[pv as int]);
                assert(self.nodes@[pv as int] is Some);
                match &mut self.nodes[pv] {
                    Some(n) => {
                        n.next = next;
                    },
                    None => {},
                }
                assert(self.nodes@ == n1.update(pv as int, Some(GStrInterner { next: next, ..old_self.node(pv) })));
            },
            None => {
                self.begin = next;
            },
        }
        self.nodes[slot] = None;
        self.free.push(slot);
        self.order = Ghost(ord.remove(p));
        proof {
            assert(self.nodes@.len() == self.nodes.len());
            assert forall|s: int| 0 <= s < self.nodes@.len() && s != slot implies #[trigger] self.nodes@[s]
                == (if prev == Some(s as usize) {
                Some(GStrInterner { next: next, ..old_self.node(s as usize) })
            } else if next == Some(s as usize) {
                Some(GStrInterner { prev: prev, ..old_self.node(s as usize) })
            } else {
                old_self.nodes@[s]
            }) by {
                assert(n0 == old_self.nodes@);
                if prev == Some(s as usize) {
                    assert(self.nodes@[s] == n1.update(s, Some(GStrInterner { next: next, ..old_self.node(s as usize) }))[s]);
                } else if next == Some(s as usize) {
                    assert(n1[s] == Some(GStrInterner { prev: prev, ..old_self.node(s as usize) }));
                } else {
                    assert(n1[s] == n0[s]);
                }
            }
            Self::lemma_unlinked(old_self, *self, slot, p, prev, next);
        }
    }

    /// `new` is `old_self` with the entry at position `p` (stored at `slot`,
    /// with neighbours `prev` and `next`) unlinked and its slot vacated.
    spec fn unlinked(old_self: GListNodo, new: GListNodo, slot: usize, p: int, prev: Option<usize>, next: Option<usize>) -> bool {
        &&& old_self.wf()
        &&& 0 <= p < old_self.order@.len()
        &&& old_self.order@[p] == slot
        &&& prev == old_self.node(slot).prev
        &&& next == old_self.node(slot).next
        &&& new.order@ == old_self.order@.remove(p)
        &&& new.nodes@.len() == old_self.nodes@.len()
        &&& new.nodes@.len() <= usize::MAX
        &&& new.nodes@[slot as int] is None
        &&& forall|s: int| 0 <= s < new.nodes@.len() && s != slot ==> #[trigger] new.nodes@[s]
            == (if prev == Some(s as usize) {
            Some(GStrInterner { next: next, ..old_self.node(s as usize) })
        } else if next == Some(s as usize) {
            Some(GStrInterner { prev: prev, ..old_self.node(s as usize) })
        } else {
            old_self.nodes@[s]
        })
        &&& new.begin == (if prev is None { next } else { old_self.begin })
        &&& new.end == (if next is None { prev } else { old_self.end })
        &&& new.free@ == old_self.free@.push(slot)
    }


    proof fn lemma_unlinked_nodes(old_self: GListNodo, new: GListNodo, slot: usize, p: int, prev: Option<usize>, next: Option<usize>)
        requires
            Self::unlinked(old_self, new, slot, p, prev, next),
        ensures
            forall|i: int| 0 <= i < old_self.order@.len() && i != p ==> #[trigger] new.node(old_self.order@[i]) == (
            if i == p - 1 {
                GStrInterner { next: next, ..old_self.node(old_self.order@[i]) }
            } else if i == p + 1 {
                GStrInterner { prev: prev, ..old_self.node(old_self.order@[i]) }
            } else {
                old_self.node(old_self.order@[i])
            }),
    {
        let ord = old_self.order@;
        let nord = new.order@;
            assert forall|i: int| 0 <= i < ord.len() && i != p implies #[trigger] new.node(ord[i]) == (
            if i == p - 1 {
                GStrInterner { next: next, ..old_self.node(ord[i]) }
            } else if i == p + 1 {
                GStrInterner { prev: prev, ..old_self.node(ord[i]) }
            } else {
                old_self.node(ord[i])
            }) by {
                assert(ord[i] != slot);
                if i == p - 1 {
                    assert(ord[i] != ord[p + 1] || p + 1 >= ord.len());
                }
            }
    }

    proof fn lemma_unlinked_occupied(old_self: GListNodo, new: GListNodo, slot: usize, p: int, prev: Option<usize>, next: Option<usize>)
        requires
            Self::unlinked(old_self, new, slot, p, prev, next),
        ensures
            forall|s: int|
                0 <= s < new.nodes@.len() && (#[trigger] new.nodes@[s]) is Some ==> new.order@.contains(s as usize),
    {
        let ord = old_self.order@;
        let nord = new.order@;
            assert forall|s: int|
                0 <= s < new.nodes@.len() && (#[trigger] new.nodes@[s]) is Some implies nord.contains(
                s as usize,
            ) by {
                assert(old_self.nodes@[s] is Some);
                assert(s != slot as int);
                let j = choose|j: int| 0 <= j < ord.len() && ord[j] == s as usize;
                if j < p {
                    assert(nord[j] == s as usize);
                } else {
                    assert(nord[j - 1] == s as usize);
                }
            }
    }

    proof fn lemma_unlinked_links(old_self: GListNodo, new: GListNodo, slot: usize, p: int, prev: Option<usize>, next: Option<usize>)
        requires
            Self::unlinked(old_self, new, slot, p, prev, next),
        ensures
            new.links_ok(),
    {
        let ord = old_self.order@;
        let nord = new.order@;
        Self::lemma_unlinked_nodes(old_self, new, slot, p, prev, next);
        Self::lemma_unlinked_occupied(old_self, new, slot, p, prev, next);
            assert forall|i: int| 0 <= i < nord.len() implies (#[trigger] nord[i]) < new.nodes@.len()
                && new.nodes@[nord[i] as int] is Some by {
                let oi = if i < p { i } else { i + 1 };
                assert(nord[i] == ord[oi]);
                assert(ord[oi] != slot);
            }
            assert forall|i: int, j: int| 0 <= i < j < nord.len() implies (#[trigger] nord[i]) != (
            #[trigger] nord[j]) by {
                let oi = if i < p { i } else { i + 1 };
                let oj = if j < p { j } else { j + 1 };
                assert(ord[oi] != ord[oj]);
            }
        Self::lemma_unlinked_neighbours(old_self, new, slot, p, prev, next);
    }

    proof fn lemma_unlinked_neighbours(old_self: GListNodo, new: GListNodo, slot: usize, p: int, prev: Option<usize>, next: Option<usize>)
        requires
            Self::unlinked(old_self, new, slot, p, prev, next),
        ensures
            forall|i: int|
                0 <= i < new.order@.len() ==> (#[trigger] new.node(new.order@[i])).prev == new.prev_of(i)
                && new.node(new.order@[i]).next == new.next_of(i),
    {
        let ord = old_self.order@;
        let nord = new.order@;
        Self::lemma_unlinked_nodes(old_self, new, slot, p, prev, next);
            assert forall|i: int|
                0 <= i < nord.len() implies (#[trigger] new.node(nord[i])).prev == new.prev_of(i)
                && new.node(nord[i]).next == new.next_of(i) by {
                let oi = if i < p { i } else { i + 1 };
                assert(nord[i] == ord[oi]);
                assert(old_self.node(ord[oi]).prev == old_self.prev_of(oi));
                assert(old_self.node(ord[oi]).next == old_self.next_of(oi));
                assert(new.node(ord[oi]) == new.node(nord[i]));
                if i > 0 {
                    let pi = if i - 1 < p { i - 1 } else { i };
                    assert(nord[i - 1] == ord[pi]);
                }
                if i + 1 < nord.len() {
                    let ni = if i + 1 < p { i + 1 } else { i + 2 };
                    assert(nord[i + 1] == ord[ni]);
                }
            }
    }

    proof fn lemma_unlinked_entries(old_self: GListNodo, new: GListNodo, slot: usize, p: int, prev: Option<usize>, next: Option<usize>)
        requires
            Self::unlinked(old_self, new, slot, p, prev, next),
        ensures
            new.entries_ok(),
    {
        let ord = old_self.order@;
        let nord = new.order@;
        Self::lemma_unlinked_nodes(old_self, new, slot, p, prev, next);
            assert forall|i: int| 0 <= i < nord.len() implies entry_ok(#[trigger] new.node(nord[i])) by {
                let oi = if i < p { i } else { i + 1 };
                assert(nord[i] == ord[oi]);
                assert(entry_ok(old_self.node(ord[oi])));
                assert(new.node(ord[oi]) == new.node(nord[i]));
            }
            assert forall|i: int, j: int|
                0 <= i < nord.len() && 0 <= j < nord.len() && i != j implies (#[trigger] new.node(
                nord[i],
            )).value@ != (#[trigger] new.node(nord[j])).value@ by {
                let oi = if i < p { i } else { i + 1 };
                let oj = if j < p { j } else { j + 1 };
                assert(nord[i] == ord[oi]);
                assert(nord[j] == ord[oj]);
                assert(new.node(ord[oi]) == new.node(nord[i]));
                assert(new.node(ord[oj]) == new.node(nord[j]));
                assert(old_self.node(ord[oi]).value@ != old_self.node(ord[oj]).value@);
            }
    }

    proof fn lemma_unlinked_free(old_self: GListNodo, new: GListNodo, slot: usize, p: int, prev: Option<usize>, next: Option<usize>)
        requires
            Self::unlinked(old_self, new, slot, p, prev, next),
        ensures
            new.free_ok(),
    {
        let ord = old_self.order@;
        let nord = new.order@;
            assert forall|k: int| 0 <= k < new.free@.len() implies (#[trigger] new.free@[k])
                < new.nodes@.len() && new.nodes@[new.free@[k] as int] is None by {
                if k < old_self.free@.len() {
                    assert(old_self.free@[k] == new.free@[k]);
                }
            }
            assert forall|k: int, l: int| 0 <= k < l < new.free@.len() implies (#[trigger] new.free@[k])
                != (#[trigger] new.free@[l]) by {
                if l == old_self.free@.len() {
                    assert(old_self.nodes@[old_self.free@[k] as int] is None);
                } else {
                    assert(old_self.free@[k] != old_self.free@[l]);
                }
            }
    }

    proof fn lemma_unlinked_view(old_self: GListNodo, new: GListNodo, slot: usize, p: int, prev: Option<usize>, next: Option<usize>)
        requires
            Self::unlinked(old_self, new, slot, p, prev, next),
        ensures
            new@ == old_self@.remove(p),
    {
        let ord = old_self.order@;
        let nord = new.order@;
        Self::lemma_unlinked_nodes(old_self, new, slot, p, prev, next);
            assert forall|i: int| 0 <= i < nord.len() implies #[trigger] new@[i] == old_self@.remove(p)[i] by {
                let oi = if i < p { i } else { i + 1 };
                assert(nord[i] == ord[oi]);
                assert(new.node(ord[oi]) == new.node(nord[i]));
            }
            assert(new@ =~= old_self@.remove(p));
    }

    proof fn lemma_unlinked(old_self: GListNodo, new: GListNodo, slot: usize, p: int, prev: Option<usize>, next: Option<usize>)
        requires
            Self::unlinked(old_self, new, slot, p, prev, next),
        ensures
            new.wf(),
            new@ == old_self@.remove(p),
    {
        Self::lemma_unlinked_links(old_self, new, slot, p, prev, next);
        Self::lemma_unlinked_entries(old_self, new, slot, p, prev, next);
        Self::lemma_unlinked_free(old_self, new, slot, p, prev, next);
        Self::lemma_unlinked_view(old_self, new, slot, p, prev, next);
    }

    /// Sets the live-handle count of the entry at `slot` to `c`.
    fn set_count(&mut self, slot: usize, c: usize)
        requires
            old(self).wf(),
            holds_slot(old(self)@, slot),
            c >= 1,
        ensures
            final(self).wf(),
            final(self)@ == old(self)@.update(
                old(self).position(slot),
                with_count(old(self)@[old(self).position(slot)], c as nat),
            ),
            final(self).position(slot) == old(self).position(slot),
    {
        let ghost old_self = *self;
        let ghost ord = self.order@;
        proof {
            self.lemma_position(slot);
        }
        let ghost p = self.position(slot);
        assert(self.nodes@[slot as int] is Some);
        match &mut self.nodes[slot] {
            Some(n) => {
                n.count = c;
            },
            None => {},
        }
        assert(self.nodes@ == old_self.nodes@.update(slot as int, Some(GStrInterner { count: c, ..old_self.node(slot) })));
        proof {
            Self::lemma_recounted(old_self, *self, slot, p, c);
            assert(self@[p].slot == slot);
            self.lemma_position(slot);
        }
    }

    /// Only the live-handle count of the entry at `slot`, at position `p`,
    /// changed: it is now `c`.
    proof fn lemma_recounted(old_self: GListNodo, new: GListNodo, slot: usize, p: int, c: usize)
        requires
            old_self.wf(),
            0 <= p < old_self.order@.len(),
            old_self.order@[p] == slot,
            c >= 1,
            new.order@ == old_self.order@,
            new.free@ == old_self.free@,
            new.begin == old_self.begin,
            new.end == old_self.end,
            new.nodes@ == old_self.nodes@.update(slot as int, Some(GStrInterner { count: c, ..old_self.node(slot) })),
        ensures
            new.wf(),
            new@ == old_self@.update(p, with_count(old_self@[p], c as nat)),
    {
        let ord = old_self.order@;
            assert forall|i: int| 0 <= i < ord.len() implies #[trigger] new.node(ord[i]) == (if i == p {
                GStrInterner { count: c, ..old_self.node(ord[i]) }
            } else {
                old_self.node(ord[i])
            }) by {
                if i != p {
                    assert(ord[i] != ord[p]);
                }
            }
            assert forall|t: int| 0 <= t < new.nodes@.len() && (#[trigger] new.nodes@[t]) is Some implies ord.contains(
                t as usize,
            ) by {
                assert(old_self.nodes@[t] is Some);
            }
            assert forall|i: int, j: int|
                0 <= i < ord.len() && 0 <= j < ord.len() && i != j implies (#[trigger] new.node(ord[i])).value@
                != (#[trigger] new.node(ord[j])).value@ by {
                assert(old_self.node(ord[i]).value@ != old_self.node(ord[j]).value@);
            }
            assert forall|i: int| 0 <= i < ord.len() implies entry_ok(#[trigger] new.node(ord[i])) by {
                assert(entry_ok(old_self.node(ord[i])));
            }
            assert forall|i: int| 0 <= i < ord.len() implies (#[trigger] new.node(ord[i])).prev == new.prev_of(i)
                && new.node(ord[i]).next == new.next_of(i) by {
                assert(old_self.node(ord[i]).prev == old_self.prev_of(i));
            }
            assert forall|k: int| 0 <= k < new.free@.len() implies (#[trigger] new.free@[k]) < new.nodes@.len()
                && new.nodes@[new.free@[k] as int] is None by {
                assert(old_self.nodes@[old_self.free@[k] as int] is None);
                assert(old_self.free@[k] != slot);
            }
        assert(new@ =~= old_self@.update(p, with_count(old_self@[p], c as nat)));
    }

    /// Records one more live handle on the entry at `slot`.
    pub fn acquire(&mut self, slot: usize)
        requires
            old(self).wf(),
            holds_slot(old(self)@, slot),
            count_at(old(self)@, slot) < usize::MAX,
        ensures
            final(self).wf(),
            acquired(old(self)@, slot, final(self)@),
    {
        proof {
            self.lemma_position(slot);
        }
        let c: usize = self.nodes[slot].as_ref().unwrap().count;
        assert(c == self@[self.position(slot)].count);
        self.set_count(slot, c + 1);
    }

    /// Records that one live handle on the entry at `slot` is gone; when it
    /// was the last one, the entry is unlinked and its content freed.
    pub fn release(&mut self, slot: usize)
        requires
            old(self).wf(),
            holds_slot(old(self)@, slot),
        ensures
            final(self).wf(),
            released(old(self)@, slot, final(self)@),
    {
        proof {
            self.lemma_position(slot);
        }
        let c: usize = self.nodes[slot].as_ref().unwrap().count;
        assert(c == self@[self.position(slot)].count);
        assert(entry_ok(self.node(self.order@[self.position(slot)])));
        if c == 1 {
            self.remove(slot);
        } else {
            self.set_count(slot, c - 1);
        }
    }

    /// The content of the entry at `slot`.
    pub fn text(&self, slot: usize) -> (r: &str)
        requires
            self.wf(),
            holds_slot(self@, slot),
        ensures
            r@ == text_at(self@, slot),
    {
        proof {
            self.lemma_position(slot);
        }
        self.nodes[slot].as_ref().unwrap().value.as_str()
    }

    /// The character count of the entry at `slot`.
    pub fn length(&self, slot: usize) -> (r: usize)
        requires
            self.wf(),
            holds_slot(self@, slot),
        ensures
            r == text_at(self@, slot).len(),
    {
        proof {
            self.lemma_position(slot);
            assert(entry_ok(self.node(self.order@[self.position(slot)])));
        }
        self.nodes[slot].as_ref().unwrap().len
    }

    /// The live-handle count of the entry at `slot`.
    pub fn count(&self, slot: usize) -> (r: usize)
        requires
            self.wf(),
            holds_slot(self@, slot),
        ensures
            r == count_at(self@, slot),
    {
        proof {
            self.lemma_position(slot);
        }
        self.nodes[slot].as_ref().unwrap().count
    }

    /// The number of live handles to the entry holding `strn`, 0 where no
    /// entry holds it.
    pub fn count_of(&self, strn: &str) -> (r: usize)
        requires
            self.wf(),
        ensures
            !holds_text(self@, strn@) ==> r == 0,
            forall|i: int| 0 <= i < self@.len() && (#[trigger] self@[i]).text == strn@ ==> r == self@[i].count,
    {
        let mut len: usize = 0;
        let hash = ohash(strn, &mut len);
        match self.search_value(strn, len, hash) {
            Some(slot) => {
                proof {
                    self.lemma_position(slot);
                    self.lemma_model_ok();
                }
                self.count(slot)
            },
            None => 0,
        }
    }
}

} // verus!
