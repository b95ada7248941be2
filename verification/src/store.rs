//! The key-value store that all connections of a server share, and what a
//! command does to it.
//!
//! The store itself knows no lock. Its callers hold one around each single
//! call of [`Store::apply`], which builds the answer while it has the store
//! and hands it back to be sent once the lock is gone.

use crate::command::{Command, CommandView};
use crate::frame::{Frame, FrameView};
use vstd::prelude::*;
use vstd::slice::slice_to_vec;
use crate::wire::{representable, terminator_at};
use vstd::utf8::{encode_utf8, is_ascii_chars, is_ascii_chars_encode_utf8};

verus! {

/// The text of the answer to a `Put`.
pub open spec fn ok_text() -> Seq<char> {
    "OK"@
}

/// A mapping from keys to values. No key is held twice.
pub struct Store {
    entries: Vec<(String, Vec<u8>)>,
}

/// The index of the entry of `key`, where there is one.
pub closed spec fn position(entries: Seq<(String, Vec<u8>)>, key: Seq<char>) -> int {
    choose|i: int| 0 <= i < entries.len() && (#[trigger] entries[i]).0@ == key
}

pub closed spec fn holds(entries: Seq<(String, Vec<u8>)>, key: Seq<char>) -> bool {
    exists|i: int| 0 <= i < entries.len() && (#[trigger] entries[i]).0@ == key
}

impl View for Store {
    type V = Map<Seq<char>, Seq<u8>>;

    closed spec fn view(&self) -> Map<Seq<char>, Seq<u8>> {
        Map::new(
            |key: Seq<char>| holds(self.entries@, key),
            |key: Seq<char>| self.entries@[position(self.entries@, key)].1@,
        )
    }
}

/// The store after a command, and the answer to it: a `Get` answers with
/// the value as a bulk frame, or with null where the key is absent, and
/// leaves the store as it is; a `Put` puts the value under the key and
/// answers `OK`.
pub open spec fn apply_spec(store: Map<Seq<char>, Seq<u8>>, command: CommandView) -> (
    Map<Seq<char>, Seq<u8>>,
    FrameView,
) {
    match command {
        CommandView::Get { key } => if store.contains_key(key) {
            (store, FrameView::Bulk(store[key]))
        } else {
            (store, FrameView::Null)
        },
        CommandView::Put { key, value } => (
            store.insert(key, value),
            FrameView::Simple(ok_text()),
        ),
    }
}

impl Store {
    #[verifier::type_invariant]
    spec fn distinct_keys(self) -> bool {
        forall|i: int, j: int|
            0 <= i < j < self.entries@.len() ==> (#[trigger] self.entries@[i]).0@ != (
            #[trigger] self.entries@[j]).0@
    }

    /// A store that holds nothing.
    pub fn new() -> (store: Store)
        ensures
            store@ == Map::<Seq<char>, Seq<u8>>::empty(),
    {
        let store = Store { entries: Vec::new() };
        assert(store@ =~= Map::<Seq<char>, Seq<u8>>::empty());
        store
    }

    /// The number of keys held.
    pub fn len(&self) -> (count: usize)
        ensures
            count == self@.dom().len(),
            self@.dom().finite(),
    {
        proof {
            use_type_invariant(self);
            lemma_domain(self.entries@);
        }
        self.entries.len()
    }

    /// The index of the entry of `key`, if the store holds it.
    fn find(&self, key: &str) -> (found: Option<usize>)
        ensures
            match found {
                Some(i) => i < self.entries@.len() && self.entries@[i as int].0@ == key@
                    && position(self.entries@, key@) == i,
                None => !holds(self.entries@, key@),
            },
    {
        proof {
            use_type_invariant(self);
        }
        let mut i: usize = 0;
        while i < self.entries.len()
            invariant
                i <= self.entries@.len(),
                forall|j: int| 0 <= j < i ==> (#[trigger] self.entries@[j]).0@ != key@,
            decreases self.entries@.len() - i,
        {
            if same_text(self.entries[i].0.as_str(), key) {
                proof {
                    use_type_invariant(self);
                    let chosen = position(self.entries@, key@);
                    assert(self.entries@[chosen].0@ == key@);
                }
                return Some(i);
            }
            i = i + 1;
        }
        None
    }

    /// A copy of the value under `key`, or `None` where the key is absent.
    pub fn get(&self, key: &str) -> (value: Option<Vec<u8>>)
        ensures
            match value {
                Some(bytes) => self@.contains_key(key@) && bytes@ == self@[key@],
                None => !self@.contains_key(key@),
            },
    {
        match self.find(key) {
            Some(i) => Some(slice_to_vec(self.entries[i].1.as_slice())),
            None => None,
        }
    }

    /// Puts `value` under `key`, in place of what was there.
    pub fn set(&mut self, key: String, value: Vec<u8>)
        ensures
            final(self)@ == old(self)@.insert(key@, value@),
    {
        proof {
            use_type_invariant(&*self);
        }
        let ghost before = self.entries@;
        match self.find(key.as_str()) {
            Some(i) => {
                let mut entries: Vec<(String, Vec<u8>)> = Vec::new();
                core::mem::swap(&mut self.entries, &mut entries);
                entries[i].1 = value;
                let ghost after = entries@;
                core::mem::swap(&mut self.entries, &mut entries);
                proof {
                    assert forall|k: Seq<char>| holds(after, k) == holds(before, k) by {
                        if holds(before, k) {
                            assert(after[position(before, k)].0@ == k);
                        }
                        if holds(after, k) {
                            assert(before[position(after, k)].0@ == k);
                        }
                    }
                    assert forall|k: Seq<char>| holds(after, k) implies after[position(
                        after,
                        k,
                    )].1@ == (if k == key@ {
                        value@
                    } else {
                        before[position(before, k)].1@
                    }) by {
                        assert(before[position(after, k)].0@ == k);
                    }
                    assert(self@ =~= old(self)@.insert(key@, value@));
                }
            },
            None => {
                let mut entries: Vec<(String, Vec<u8>)> = Vec::new();
                core::mem::swap(&mut self.entries, &mut entries);
                entries.push((key, value));
                let ghost after = entries@;
                core::mem::swap(&mut self.entries, &mut entries);
                proof {
                    let last = after.len() - 1;
                    assert(after[last].0@ == key@);
                    assert forall|k: Seq<char>| holds(after, k) == (k == key@ || holds(
                        before,
                        k,
                    )) by {
                        if holds(before, k) {
                            assert(after[position(before, k)].0@ == k);
                        }
                        if holds(after, k) && k != key@ {
                            assert(before[position(after, k)].0@ == k);
                        }
                    }
                    assert forall|k: Seq<char>| holds(after, k) implies after[position(
                        after,
                        k,
                    )].1@ == (if k == key@ {
                        value@
                    } else {
                        before[position(before, k)].1@
                    }) by {
                        if k != key@ {
                            assert(before[position(after, k)].0@ == k);
                        }
                    }
                    assert(self@ =~= old(self)@.insert(key@, value@));
                }
            },
        }
    }

    /// Carries out one command and builds the answer to it. This is the
    /// whole of what happens under the lock.
    pub fn apply(&mut self, command: Command) -> (answer: Frame)
        ensures
            (final(self)@, answer@) == apply_spec(old(self)@, command@),
    {
        match command {
            Command::Get { key } => match self.get(key.as_str()) {
                Some(value) => Frame::Bulk(value),
                None => Frame::Null,
            },
            Command::Put { key, value } => {
                self.set(key, value);
                Frame::Simple("OK".to_owned())
            },
        }
    }
}

/// Tells whether two texts are the same.
fn same_text(left: &str, right: &str) -> (same: bool)
    ensures
        same == (left@ == right@),
{
    let a = left.as_bytes();
    let b = right.as_bytes();
    if a.len() != b.len() {
        return false;
    }
    let mut i: usize = 0;
    while i < a.len()
        invariant
            i <= a.len(),
            a.len() == b.len(),
            a@ == encode_utf8(left@),
            b@ == encode_utf8(right@),
            forall|j: int| 0 <= j < i ==> a@[j] == b@[j],
        decreases a.len() - i,
    {
        if a[i] != b[i] {
            return false;
        }
        i = i + 1;
    }
    proof {
        assert(a@ =~= b@);
        vstd::utf8::encode_utf8_decode_utf8(left@);
        vstd::utf8::encode_utf8_decode_utf8(right@);
    }
    true
}

/// The keys held are as many as the entries, where no key is held twice.
proof fn lemma_domain(entries: Seq<(String, Vec<u8>)>)
    requires
        forall|i: int, j: int|
            0 <= i < j < entries.len() ==> (#[trigger] entries[i]).0@ != (#[trigger] entries[j]).0@,
    ensures
        Set::new(|key: Seq<char>| holds(entries, key)).finite(),
        Set::new(|key: Seq<char>| holds(entries, key)).len() == entries.len(),
    decreases entries.len(),
{
    let keys = Set::new(|key: Seq<char>| holds(entries, key));
    if entries.len() == 0 {
        assert(keys =~= Set::<Seq<char>>::empty());
    } else {
        let shorter = entries.drop_last();
        let fewer = Set::new(|key: Seq<char>| holds(shorter, key));
        let last = entries.last().0@;
        lemma_domain(shorter);
        assert forall|key: Seq<char>| keys.contains(key) == fewer.insert(last).contains(
            key,
        ) by {
            if holds(shorter, key) {
                assert(entries[position(shorter, key)].0@ == key);
            }
            if holds(entries, key) && key != last {
                assert(shorter[position(entries, key)].0@ == key);
            }
        }
        assert(keys =~= fewer.insert(last));
        assert(!fewer.contains(last)) by {
            if holds(shorter, last) {
                assert(entries[position(shorter, last)].0@ == last);
            }
        }
    }
}

/// The store after a sequence of commands, carried out one by one.
pub open spec fn apply_all(store: Map<Seq<char>, Seq<u8>>, commands: Seq<CommandView>) -> Map<
    Seq<char>,
    Seq<u8>,
>
    decreases commands.len(),
{
    if commands.len() == 0 {
        store
    } else {
        apply_all(apply_spec(store, commands[0]).0, commands.drop_first())
    }
}

/// `command` puts no value under `key`.
pub open spec fn leaves_key(command: CommandView, key: Seq<char>) -> bool {
    command matches CommandView::Put { key: other, .. } ==> other != key
}

/// Commands that put nothing under a key leave its value as it is.
pub proof fn lemma_others_leave_key(
    store: Map<Seq<char>, Seq<u8>>,
    commands: Seq<CommandView>,
    key: Seq<char>,
)
    requires
        forall|i: int| 0 <= i < commands.len() ==> leaves_key(#[trigger] commands[i], key),
    ensures
        apply_all(store, commands).contains_key(key) == store.contains_key(key),
        store.contains_key(key) ==> apply_all(store, commands)[key] == store[key],
    decreases commands.len(),
{
    if commands.len() > 0 {
        let later = commands.drop_first();
        assert(leaves_key(commands[0], key));
        assert forall|i: int| 0 <= i < later.len() implies leaves_key(#[trigger] later[i], key) by {
            assert(later[i] == commands[i + 1]);
        }
        lemma_others_leave_key(apply_spec(store, commands[0]).0, later, key);
    }
}

/// What was put under a key is what a later `Get` of that key answers, on
/// whichever connection the two commands came, and whatever was done to
/// other keys in between.
pub proof fn lemma_put_then_get(
    store: Map<Seq<char>, Seq<u8>>,
    key: Seq<char>,
    value: Seq<u8>,
    between: Seq<CommandView>,
)
    requires
        forall|i: int| 0 <= i < between.len() ==> leaves_key(#[trigger] between[i], key),
    ensures
        apply_spec(
            apply_all(apply_spec(store, CommandView::Put { key, value }).0, between),
            CommandView::Get { key },
        ).1 == FrameView::Bulk(value),
{
    lemma_others_leave_key(apply_spec(store, CommandView::Put { key, value }).0, between, key);
}

/// A `Get` of a key that the store does not hold answers null and changes
/// nothing.
pub proof fn lemma_get_absent(store: Map<Seq<char>, Seq<u8>>, key: Seq<char>)
    requires
        !store.contains_key(key),
    ensures
        apply_spec(store, CommandView::Get { key }) == (store, FrameView::Null),
{
}

/// Last writer wins: of two `Put`s of one key, carried out one after the
/// other in either order, the store keeps the value of the second, whole,
/// and every other key as it was.
pub proof fn lemma_last_writer_wins(
    store: Map<Seq<char>, Seq<u8>>,
    key: Seq<char>,
    first: Seq<u8>,
    second: Seq<u8>,
)
    ensures
        apply_all(
            store,
            seq![CommandView::Put { key, value: first }, CommandView::Put { key, value: second }],
        ) == store.insert(key, second),
        apply_all(
            store,
            seq![CommandView::Put { key, value: second }, CommandView::Put { key, value: first }],
        ) == store.insert(key, first),
{
    let one = seq![CommandView::Put { key, value: first }, CommandView::Put { key, value: second }];
    let other = seq![
        CommandView::Put { key, value: second },
        CommandView::Put { key, value: first },
    ];
    reveal_with_fuel(apply_all, 3);
    assert(one.drop_first().drop_first() =~= Seq::<CommandView>::empty());
    assert(other.drop_first().drop_first() =~= Seq::<CommandView>::empty());
    assert(one.drop_first()[0] == one[1]);
    assert(other.drop_first()[0] == other[1]);
    assert(store.insert(key, first).insert(key, second) =~= store.insert(key, second));
    assert(store.insert(key, second).insert(key, first) =~= store.insert(key, first));
}

/// The answer to a `Put` is a frame that the wire can carry.
pub proof fn lemma_ok_is_representable()
    ensures
        representable(FrameView::Simple(ok_text())),
{
    reveal_strlit("OK");
    let text = ok_text();
    assert(text.len() == 2);
    assert(text[0] == 'O' && text[1] == 'K');
    assert(is_ascii_chars(text));
    is_ascii_chars_encode_utf8(text);
    let bytes = encode_utf8(text);
    assert(bytes[0] == 79 && bytes[1] == 75);
    assert forall|i: int| !terminator_at(bytes, i) by {
        if 0 <= i && i + 1 < bytes.len() {
            assert(i == 0);
        }
    }
}

} // verus!
