//! Named save slots, and the archive that holds them all.

use vstd::prelude::*;
use vstd::slice::slice_subrange;
use vstd::std_specs::cmp::{PartialEqSpec, PartialEqSpecImpl};

use crate::bytes;
use crate::error::SaveError;
use crate::order;
use crate::record;
use crate::text;
use crate::world;
use crate::world::{WorldSave, WorldView};

verus! {

/// A saved world under its name.
#[derive(Debug)]
struct SaveSlot {
    name: String,
    world: WorldSave,
}

/// Saved worlds, each under a name of its own.
///
/// The slots stand in the order of their names. `==` compares the worlds saved under each name,
/// their real numbers as such.
#[derive(Debug)]
pub struct SaveManager {
    slots: Vec<SaveSlot>,
}

/// A name and the world saved under it.
pub type Entry = (Seq<char>, WorldView);

/// The names of entries, in their order.
pub open spec fn entry_names(entries: Seq<Entry>) -> Seq<Seq<char>> {
    Seq::new(entries.len(), |i: int| entries[i].0)
}

/// Whether entries stand in the order of their names, no two of which are equal.
pub open spec fn entries_ordered(entries: Seq<Entry>) -> bool {
    order::names_ordered(entry_names(entries))
}

/// What is saved under which name; of two entries of one name the later counts.
pub open spec fn contents(entries: Seq<Entry>) -> Map<Seq<char>, WorldView>
    decreases entries.len(),
{
    if entries.len() == 0 {
        Map::empty()
    } else {
        contents(entries.drop_last()).insert(entries.last().0, entries.last().1)
    }
}

/// A save in an archive: name(4 + length) | world. The world delimits itself.
pub open spec fn entry_bytes(entry: Entry) -> Seq<u8> {
    text::text_bytes(entry.0) + world::world_bytes(entry.1)
}

/// Saves that follow one another.
pub open spec fn entries_bytes(entries: Seq<Entry>) -> Seq<u8> {
    bytes::concat(Seq::new(entries.len(), |i: int| entry_bytes(entries[i])))
}

/// An archive: the number of saves in four bytes, then the saves.
pub open spec fn archive_bytes(entries: Seq<Entry>) -> Seq<u8> {
    bytes::le_bytes(entries.len(), 4) + entries_bytes(entries)
}

/// The save at the start of `data`, and how many bytes it takes.
pub open spec fn parse_entry(data: Seq<u8>) -> Result<(Entry, nat), crate::error::SaveErrorView> {
    match text::parse_text(data, "invalid utf-8 in save name: "@) {
        Err(error) => Err(error),
        Ok((name, name_end)) => match world::parse_world_prefix(data.skip(name_end as int)) {
            Err(error) => Err(error),
            Ok((world, taken)) => Ok(((name, world), name_end + taken)),
        },
    }
}

/// The `count` saves at the start of `data`. The first one that cannot be read decides the error.
pub open spec fn parse_entries(data: Seq<u8>, count: nat) -> Result<
    Seq<Entry>,
    crate::error::SaveErrorView,
>
    decreases count,
{
    if count == 0 {
        Ok(Seq::empty())
    } else {
        match parse_entry(data) {
            Err(error) => Err(error),
            Ok((first, taken)) => match parse_entries(
                data.skip(taken as int),
                (count - 1) as nat,
            ) {
                Err(error) => Err(error),
                Ok(others) => Ok(seq![first] + others),
            },
        }
    }
}

/// What is saved in the archive at the start of `data`.
pub open spec fn parse_archive(data: Seq<u8>) -> Result<
    Map<Seq<char>, WorldView>,
    crate::error::SaveErrorView,
> {
    if data.len() < 4 {
        Err(crate::error::SaveErrorView::UnexpectedEof)
    } else {
        match parse_entries(data.skip(4), bytes::u32_at(data, 0) as nat) {
            Err(error) => Err(error),
            Ok(entries) => Ok(contents(entries)),
        }
    }
}

impl View for SaveSlot {
    type V = Entry;

    closed spec fn view(&self) -> Entry {
        (self.name@, self.world@)
    }
}

impl SaveManager {
    /// The saves in the order of their names.
    pub closed spec fn entries(&self) -> Seq<Entry> {
        record::views(self.slots@)
    }

    /// Whether the slots are in order, as those of every manager are.
    #[verifier::type_invariant]
    pub open spec fn wf(&self) -> bool {
        entries_ordered(self.entries())
    }
}

impl View for SaveManager {
    type V = Map<Seq<char>, WorldView>;

    open spec fn view(&self) -> Map<Seq<char>, WorldView> {
        contents(self.entries())
    }
}

/// A name is in the contents of entries if one of them has it.
proof fn lemma_contents_dom(entries: Seq<Entry>, name: Seq<char>)
    ensures
        contents(entries).contains_key(name) <==> exists|i: int|
            0 <= i < entries.len() && (#[trigger] entries[i]).0 == name,
    decreases entries.len(),
{
    if entries.len() > 0 {
        let init = entries.drop_last();
        lemma_contents_dom(init, name);
        if contents(init).contains_key(name) {
            let i = choose|i: int| 0 <= i < init.len() && (#[trigger] init[i]).0 == name;
            assert(entries[i].0 == name);
        }
        if name == entries.last().0 {
            assert(entries[entries.len() - 1].0 == name);
        }
        if exists|i: int| 0 <= i < entries.len() && (#[trigger] entries[i]).0 == name {
            let i = choose|i: int| 0 <= i < entries.len() && (#[trigger] entries[i]).0 == name;
            if i < init.len() {
                assert(init[i].0 == name);
            }
        }
    }
}

/// The names of entries are those under which something is in their contents.
proof fn lemma_names_are_dom(entries: Seq<Entry>)
    ensures
        entry_names(entries).to_set() == contents(entries).dom(),
{
    let names = entry_names(entries);
    assert forall|name: Seq<char>| names.to_set().contains(name) <==> contents(
        entries,
    ).contains_key(name) by {
        lemma_contents_dom(entries, name);
        if names.contains(name) {
            assert(entries[names.index_of(name)].0 == name);
        }
        if contents(entries).contains_key(name) {
            let i = choose|i: int| 0 <= i < entries.len() && (#[trigger] entries[i]).0 == name;
            assert(names[i] == name);
        }
    }
    assert(names.to_set() =~= contents(entries).dom());
}

/// Entries in order have different names.
proof fn lemma_names_differ(entries: Seq<Entry>, i: int, j: int)
    requires
        entries_ordered(entries),
        0 <= i < entries.len(),
        0 <= j < entries.len(),
        i != j,
    ensures
        entries[i].0 != entries[j].0,
{
    let names = entry_names(entries);
    assert(names[i] == entries[i].0 && names[j] == entries[j].0);
    order::lemma_irreflexive(names[i]);
}

/// The part of ordered entries before the last is ordered too.
proof fn lemma_init_ordered(entries: Seq<Entry>)
    requires
        entries_ordered(entries),
        entries.len() > 0,
    ensures
        entries_ordered(entries.drop_last()),
{
    let names = entry_names(entries);
    let init = entry_names(entries.drop_last());
    assert forall|i: int, j: int| 0 <= i < j < init.len() implies order::name_precedes(
        #[trigger] init[i],
        #[trigger] init[j],
    ) by {
        assert(init[i] == names[i] && init[j] == names[j]);
    }
}

/// Every one of ordered entries counts.
proof fn lemma_contents_at(entries: Seq<Entry>, i: int)
    requires
        entries_ordered(entries),
        0 <= i < entries.len(),
    ensures
        contents(entries).contains_key(entries[i].0),
        contents(entries)[entries[i].0] == entries[i].1,
    decreases entries.len(),
{
    if i < entries.len() - 1 {
        lemma_init_ordered(entries);
        lemma_contents_at(entries.drop_last(), i);
        lemma_names_differ(entries, i, entries.len() - 1);
    }
}

/// Ordered entries hold as many worlds as there are entries.
proof fn lemma_contents_len(entries: Seq<Entry>)
    requires
        entries_ordered(entries),
    ensures
        contents(entries).dom().finite(),
        contents(entries).len() == entries.len(),
    decreases entries.len(),
{
    if entries.len() > 0 {
        let init = entries.drop_last();
        let name = entries.last().0;
        lemma_init_ordered(entries);
        lemma_contents_len(init);
        lemma_contents_dom(init, name);
        if contents(init).contains_key(name) {
            let i = choose|i: int| 0 <= i < init.len() && (#[trigger] init[i]).0 == name;
            lemma_names_differ(entries, i, entries.len() - 1);
        }
    }
}

/// Ordered entries have the contents `saves` if each of them stands in it and nothing else does.
proof fn lemma_are_contents(entries: Seq<Entry>, saves: Map<Seq<char>, WorldView>)
    requires
        entries_ordered(entries),
        forall|i: int|
            0 <= i < entries.len() ==> saves.contains_key((#[trigger] entries[i]).0)
                && saves[entries[i].0] == entries[i].1,
        forall|name: Seq<char>| #[trigger]
            saves.contains_key(name) ==> exists|i: int|
                0 <= i < entries.len() && (#[trigger] entries[i]).0 == name,
    ensures
        contents(entries) == saves,
{
    assert forall|name: Seq<char>| #[trigger]
        contents(entries).contains_key(name) implies saves.contains_key(name)
        && contents(entries)[name] == saves[name] by {
        lemma_contents_dom(entries, name);
        let i = choose|i: int| 0 <= i < entries.len() && (#[trigger] entries[i]).0 == name;
        lemma_contents_at(entries, i);
    }
    assert forall|name: Seq<char>| #[trigger] saves.contains_key(name) implies contents(
        entries,
    ).contains_key(name) by {
        lemma_contents_dom(entries, name);
    }
    assert(contents(entries) =~= saves);
}

/// A new entry put in its place among ordered entries.
proof fn lemma_entry_added(entries: Seq<Entry>, at: int, entry: Entry)
    requires
        entries_ordered(entries),
        0 <= at <= entries.len(),
        forall|i: int|
            0 <= i < at ==> order::name_precedes((#[trigger] entries[i]).0, entry.0),
        forall|i: int|
            at <= i < entries.len() ==> order::name_precedes(entry.0, (#[trigger] entries[i]).0),
    ensures
        entries_ordered(entries.insert(at, entry)),
        contents(entries.insert(at, entry)) == contents(entries).insert(entry.0, entry.1),
{
    let after = entries.insert(at, entry);
    let saves = contents(entries).insert(entry.0, entry.1);
    let names = entry_names(entries);
    assert forall|i: int, j: int| 0 <= i < j < after.len() implies order::name_precedes(
        #[trigger] entry_names(after)[i],
        #[trigger] entry_names(after)[j],
    ) by {
        let from = if i < at { i } else { i - 1 };
        let to = if j < at { j } else { j - 1 };
        if i != at && j != at {
            assert(order::name_precedes(names[from], names[to]));
        } else if i == at {
            assert(after[j] == entries[to]);
        } else {
            assert(after[i] == entries[from]);
        }
    }
    assert forall|i: int| 0 <= i < after.len() implies saves.contains_key((#[trigger] after[i]).0)
        && saves[after[i].0] == after[i].1 by {
        if i != at {
            let from = if i < at { i } else { i - 1 };
            assert(after[i] == entries[from]);
            lemma_contents_at(entries, from);
            order::lemma_irreflexive(entry.0);
        }
    }
    assert forall|name: Seq<char>| #[trigger] saves.contains_key(name) implies exists|i: int|
        0 <= i < after.len() && (#[trigger] after[i]).0 == name by {
        if name == entry.0 {
            assert(after[at].0 == name);
        } else {
            lemma_contents_dom(entries, name);
            let i = choose|i: int| 0 <= i < entries.len() && (#[trigger] entries[i]).0 == name;
            assert(after[if i < at { i } else { i + 1 }].0 == name);
        }
    }
    lemma_are_contents(after, saves);
}

/// An entry put over the one of the same name.
proof fn lemma_entry_replaced(entries: Seq<Entry>, at: int, entry: Entry)
    requires
        entries_ordered(entries),
        0 <= at < entries.len(),
        entries[at].0 == entry.0,
    ensures
        entries_ordered(entries.update(at, entry)),
        contents(entries.update(at, entry)) == contents(entries).insert(entry.0, entry.1),
{
    let after = entries.update(at, entry);
    let saves = contents(entries).insert(entry.0, entry.1);
    assert(entry_names(after) =~= entry_names(entries));
    assert forall|i: int| 0 <= i < after.len() implies saves.contains_key((#[trigger] after[i]).0)
        && saves[after[i].0] == after[i].1 by {
        if i != at {
            lemma_contents_at(entries, i);
            lemma_names_differ(entries, i, at);
        }
    }
    assert forall|name: Seq<char>| #[trigger] saves.contains_key(name) implies exists|i: int|
        0 <= i < after.len() && (#[trigger] after[i]).0 == name by {
        if name == entry.0 {
            assert(after[at].0 == name);
        } else {
            lemma_contents_dom(entries, name);
            let i = choose|i: int| 0 <= i < entries.len() && (#[trigger] entries[i]).0 == name;
            assert(after[i].0 == name);
        }
    }
    lemma_are_contents(after, saves);
}

/// An entry taken out of ordered entries.
proof fn lemma_entry_removed(entries: Seq<Entry>, at: int)
    requires
        entries_ordered(entries),
        0 <= at < entries.len(),
    ensures
        entries_ordered(entries.remove(at)),
        contents(entries.remove(at)) == contents(entries).remove(entries[at].0),
{
    let after = entries.remove(at);
    let saves = contents(entries).remove(entries[at].0);
    let names = entry_names(entries);
    assert forall|i: int, j: int| 0 <= i < j < after.len() implies order::name_precedes(
        #[trigger] entry_names(after)[i],
        #[trigger] entry_names(after)[j],
    ) by {
        let from = if i < at { i } else { i + 1 };
        let to = if j < at { j } else { j + 1 };
        assert(order::name_precedes(names[from], names[to]));
    }
    assert forall|i: int| 0 <= i < after.len() implies saves.contains_key((#[trigger] after[i]).0)
        && saves[after[i].0] == after[i].1 by {
        let from = if i < at { i } else { i + 1 };
        assert(after[i] == entries[from]);
        lemma_contents_at(entries, from);
        lemma_names_differ(entries, from, at);
    }
    assert forall|name: Seq<char>| #[trigger] saves.contains_key(name) implies exists|i: int|
        0 <= i < after.len() && (#[trigger] after[i]).0 == name by {
        lemma_contents_dom(entries, name);
        let i = choose|i: int| 0 <= i < entries.len() && (#[trigger] entries[i]).0 == name;
        assert(after[if i < at { i } else { i - 1 }].0 == name);
    }
    lemma_are_contents(after, saves);
}

/// A name that the entries before `at` precede and that none from there on precedes is in the
/// contents only as that of the entry at `at`, which it does not precede.
proof fn lemma_found(entries: Seq<Entry>, at: int, name: Seq<char>)
    requires
        entries_ordered(entries),
        0 <= at <= entries.len(),
        forall|i: int| 0 <= i < at ==> order::name_precedes((#[trigger] entries[i]).0, name),
        forall|i: int|
            at <= i < entries.len() ==> !order::name_precedes((#[trigger] entries[i]).0, name),
    ensures
        contents(entries).contains_key(name) <==> at < entries.len() && !order::name_precedes(
            name,
            entries[at].0,
        ),
        contents(entries).contains_key(name) ==> entries[at].0 == name
            && contents(entries)[name] == entries[at].1,
        !contents(entries).contains_key(name) ==> forall|i: int|
            at <= i < entries.len() ==> order::name_precedes(name, (#[trigger] entries[i]).0),
{
    let names = entry_names(entries);
    lemma_contents_dom(entries, name);
    order::lemma_irreflexive(name);
    if at < entries.len() {
        order::lemma_total(name, entries[at].0);
    }
    if at < entries.len() && entries[at].0 == name {
        lemma_contents_at(entries, at);
    } else {
        assert forall|i: int| at <= i < entries.len() implies order::name_precedes(
            name,
            (#[trigger] entries[i]).0,
        ) by {
            if i > at {
                assert(order::name_precedes(names[at], names[i]));
                order::lemma_transitive(name, entries[at].0, entries[i].0);
            }
        }
    }
}

impl SaveManager {
    /// A manager without saves.
    pub fn new() -> (manager: Self)
        ensures
            manager@ == Map::<Seq<char>, WorldView>::empty(),
    {
        Self { slots: Vec::new() }
    }

    /// The number of slots whose names precede `name`.
    fn position(&self, name: &str) -> (at: usize)
        requires
            self.wf(),
        ensures
            at <= self.slots.len(),
            forall|i: int|
                0 <= i < at ==> order::name_precedes((#[trigger] self.entries()[i]).0, name@),
            forall|i: int|
                at <= i < self.slots.len() ==> !order::name_precedes(
                    (#[trigger] self.entries()[i]).0,
                    name@,
                ),
    {
        let ghost entries = self.entries();
        let ghost names = entry_names(entries);
        let mut low: usize = 0;
        let mut high: usize = self.slots.len();
        while low < high
            invariant
                entries == self.entries(),
                names == entry_names(entries),
                order::names_ordered(names),
                low <= high <= self.slots.len(),
                forall|i: int|
                    0 <= i < low ==> order::name_precedes((#[trigger] entries[i]).0, name@),
                forall|i: int|
                    high <= i < self.slots.len() ==> !order::name_precedes(
                        (#[trigger] entries[i]).0,
                        name@,
                    ),
            decreases high - low,
        {
            let middle: usize = low + (high - low) / 2;
            if order::precedes(self.slots[middle].name.as_str(), name) {
                proof {
                    assert forall|i: int| 0 <= i <= middle implies order::name_precedes(
                        (#[trigger] entries[i]).0,
                        name@,
                    ) by {
                        if i < middle {
                            assert(order::name_precedes(names[i], names[middle as int]));
                            order::lemma_transitive(names[i], names[middle as int], name@);
                        }
                    }
                }
                low = middle + 1;
            } else {
                proof {
                    assert forall|i: int|
                        middle <= i < self.slots.len() implies !order::name_precedes(
                        (#[trigger] entries[i]).0,
                        name@,
                    ) by {
                        if i > middle && order::name_precedes(entries[i].0, name@) {
                            assert(order::name_precedes(names[middle as int], names[i]));
                            order::lemma_transitive(names[middle as int], names[i], name@);
                        }
                    }
                }
                high = middle;
            }
        }
        low
    }

    /// The slot of the save called `name`, or else the place where it would stand.
    fn find(&self, name: &str) -> (result: Result<usize, usize>)
        requires
            self.wf(),
        ensures
            match result {
                Ok(at) => at < self.slots.len() && self.entries()[at as int].0 == name@
                    && self@.contains_key(name@) && self@[name@] == self.entries()[at as int].1,
                Err(at) => at <= self.slots.len() && !self@.contains_key(name@) && (forall|i: int|
                    0 <= i < at ==> order::name_precedes((#[trigger] self.entries()[i]).0, name@))
                    && (forall|i: int|
                    at <= i < self.slots.len() ==> order::name_precedes(
                        name@,
                        (#[trigger] self.entries()[i]).0,
                    )),
            },
    {
        let at: usize = self.position(name);
        proof {
            lemma_found(self.entries(), at as int, name@);
        }
        if at < self.slots.len() && !order::precedes(name, self.slots[at].name.as_str()) {
            Ok(at)
        } else {
            Err(at)
        }
    }

    /// Takes out the slots and leaves none.
    fn take_slots(&mut self) -> (slots: Vec<SaveSlot>)
        ensures
            record::views(slots@) == old(self).entries(),
            final(self).entries() == Seq::<Entry>::empty(),
    {
        let mut slots: Vec<SaveSlot> = Vec::new();
        std::mem::swap(&mut slots, &mut self.slots);
        slots
    }

    /// Puts `world` under `name`, in place of what was saved there.
    fn put(&mut self, name: String, world: WorldSave)
        ensures
            final(self)@ == old(self)@.insert(name@, world@),
    {
        proof {
            use_type_invariant(&*self);
        }
        let ghost entries = self.entries();
        let ghost entry = (name@, world@);
        let found = self.find(name.as_str());
        let mut slots = self.take_slots();
        match found {
            Ok(at) => {
                slots.set(at, SaveSlot { name, world });
                proof {
                    lemma_entry_replaced(entries, at as int, entry);
                    assert(record::views(slots@) =~= entries.update(at as int, entry));
                }
            },
            Err(at) => {
                slots.insert(at, SaveSlot { name, world });
                proof {
                    lemma_entry_added(entries, at as int, entry);
                    assert(record::views(slots@) =~= entries.insert(at as int, entry));
                }
            },
        }
        self.slots = slots;
    }

    /// Saves `world` under `name`, in place of what was saved there. Every world can be encoded,
    /// so nothing is refused.
    pub fn save(&mut self, name: &str, world: WorldSave) -> (result: Result<(), SaveError>)
        ensures
            result is Ok,
            final(self)@ == old(self)@.insert(name@, world@),
    {
        self.put(name.to_string(), world);
        Ok(())
    }

    /// The world saved under `name`.
    pub fn load(&self, name: &str) -> (world: Option<&WorldSave>)
        ensures
            match world {
                Some(world) => self@.contains_key(name@) && self@[name@] == world@,
                None => !self@.contains_key(name@),
            },
    {
        proof {
            use_type_invariant(&*self);
        }
        match self.find(name) {
            Ok(at) => Some(&self.slots[at].world),
            Err(_) => None,
        }
    }

    /// Removes what is saved under `name`; returns whether there was anything.
    pub fn delete(&mut self, name: &str) -> (removed: bool)
        ensures
            final(self)@ == old(self)@.remove(name@),
            removed == old(self)@.contains_key(name@),
    {
        proof {
            use_type_invariant(&*self);
        }
        let ghost entries = self.entries();
        match self.find(name) {
            Ok(at) => {
                let mut slots = self.take_slots();
                slots.remove(at);
                proof {
                    lemma_entry_removed(entries, at as int);
                    assert(record::views(slots@) =~= entries.remove(at as int));
                }
                self.slots = slots;
                true
            },
            Err(_) => {
                assert(self@.remove(name@) =~= self@);
                false
            },
        }
    }

    /// The number of saves.
    pub fn save_count(&self) -> (count: usize)
        ensures
            count == self@.len(),
    {
        proof {
            use_type_invariant(&*self);
            lemma_contents_len(self.entries());
        }
        self.slots.len()
    }

    /// The names of all saves, in order.
    pub fn list_saves(&self) -> (names: Vec<&str>)
        ensures
            record::views(names@).to_set() == self@.dom(),
            order::names_ordered(record::views(names@)),
    {
        proof {
            use_type_invariant(&*self);
        }
        let mut names: Vec<&str> = Vec::new();
        let mut i: usize = 0;
        while i < self.slots.len()
            invariant
                i <= self.slots.len(),
                names.len() == i,
                forall|j: int| 0 <= j < i ==> (#[trigger] names@[j])@ == self.entries()[j].0,
            decreases self.slots.len() - i,
        {
            names.push(self.slots[i].name.as_str());
            i = i + 1;
        }
        proof {
            let entries = self.entries();
            let listed = record::views(names@);
            assert(listed =~= entry_names(entries));
            lemma_names_are_dom(entries);
        }
        names
    }

    /// Writes all saves to an archive, in the order of their names:
    /// count(4), then for each save name_len(4) | name | encoded world.
    pub fn to_bytes(&self) -> (archive: Vec<u8>)
        ensures
            archive@ == archive_bytes(self.entries()),
    {
        let ghost entries = self.entries();
        let mut out: Vec<u8> = Vec::new();
        bytes::push_le(&mut out, self.slots.len() as u64, 4);
        let ghost head = out@;
        let mut i: usize = 0;
        assert(head =~= head + entries_bytes(entries.take(0)));
        while i < self.slots.len()
            invariant
                i <= self.slots.len(),
                entries == self.entries(),
                out@ == head + entries_bytes(entries.take(i as int)),
            decreases self.slots.len() - i,
        {
            let ghost done = entries.take(i as int);
            let encoded = self.slots[i].world.encode();
            text::push_text(&mut out, self.slots[i].name.as_str());
            bytes::push_bytes(&mut out, encoded.as_slice());
            proof {
                let entry = entries[i as int];
                lemma_last_entry(entries.take(i + 1));
                assert(entries.take(i + 1).drop_last() =~= done);
                bytes::lemma_regroup(
                    head + entries_bytes(done),
                    text::text_bytes(entry.0),
                    encoded@,
                );
                bytes::lemma_regroup(head, entries_bytes(done), entry_bytes(entry));
            }
            i = i + 1;
        }
        assert(entries.take(i as int) =~= entries);
        assert(out@ =~= archive_bytes(entries));
        out
    }

    /// Reads all saves from an archive. Of two saves of one name the later is kept.
    pub fn from_bytes(data: &[u8]) -> (result: Result<Self, SaveError>)
        ensures
            crate::error::whole_outcome(result) == parse_archive(data@),
    {
        if data.len() < 4 {
            return Err(SaveError::UnexpectedEof);
        }
        Self::read_entries(data, 4, bytes::read_u32(data, 0))
    }

    /// Reads the `count` saves at offset `at`.
    fn read_entries(data: &[u8], at: usize, count: u32) -> (result: Result<Self, SaveError>)
        requires
            at <= data.len(),
        ensures
            match result {
                Ok(manager) => parse_entries(data@.skip(at as int), count as nat) matches Ok(
                    entries,
                ) && manager@ == contents(entries),
                Err(error) => parse_entries(data@.skip(at as int), count as nat) == Err::<
                    Seq<Entry>,
                    _,
                >(error@),
            },
    {
        let ghost entries = parse_entries(data@.skip(at as int), count as nat);
        let ghost mut done: Seq<Entry> = Seq::empty();
        let mut manager = Self::new();
        let mut offset: usize = at;
        let mut i: u32 = 0;
        proof {
            if let Ok(others) = entries {
                assert(done + others =~= others);
            }
        }
        while i < count
            invariant
                i <= count,
                offset <= data.len(),
                entries == parse_entries(data@.skip(at as int), count as nat),
                match parse_entries(data@.skip(offset as int), (count - i) as nat) {
                    Ok(others) => entries == Ok::<_, crate::error::SaveErrorView>(done + others),
                    Err(error) => entries == Err::<Seq<Entry>, _>(error),
                },
                manager@ == contents(done),
            decreases count - i,
        {
            match read_entry(data, offset) {
                Ok((name, world, taken)) => {
                    proof {
                        let rest = data@.skip(offset as int);
                        let first = (name@, world@);
                        lemma_entry_read(done, rest, (count - i) as nat, first, taken as nat);
                        assert(rest.skip(taken as int) =~= data@.skip(offset + taken));
                        done = done.push(first);
                    }
                    manager.put(name, world);
                    offset = offset + taken;
                },
                Err(error) => return Err(error),
            }
            i = i + 1;
        }
        assert(done + Seq::<Entry>::empty() =~= done);
        Ok(manager)
    }
}

/// Entries of which one more was read.
proof fn lemma_entry_read(done: Seq<Entry>, data: Seq<u8>, count: nat, first: Entry, taken: nat)
    requires
        count > 0,
        parse_entry(data) == Ok::<_, crate::error::SaveErrorView>((first, taken)),
    ensures
        match parse_entries(data.skip(taken as int), (count - 1) as nat) {
            Ok(others) => (parse_entries(data, count) matches Ok(entries) && done + entries
                == done.push(first) + others),
            Err(error) => parse_entries(data, count) == Err::<Seq<Entry>, _>(error),
        },
        contents(done.push(first)) == contents(done).insert(first.0, first.1),
{
    if let Ok(others) = parse_entries(data.skip(taken as int), (count - 1) as nat) {
        assert(done + (seq![first] + others) =~= done.push(first) + others);
    }
    assert(done.push(first).drop_last() =~= done);
}

impl Clone for SaveSlot {
    fn clone(&self) -> (copy: Self)
        ensures
            copy@ == self@,
    {
        Self { name: self.name.clone(), world: self.world.clone() }
    }
}

impl Clone for SaveManager {
    fn clone(&self) -> (copy: Self)
        ensures
            copy.entries() == self.entries(),
            copy@ == self@,
    {
        proof {
            use_type_invariant(&*self);
        }
        let slots = self.slots.clone();
        assert(record::views(slots@) =~= self.entries());
        Self { slots }
    }
}

/// Whether the same names are in use, with equal worlds under them.
pub open spec fn same_saves(a: Map<Seq<char>, WorldView>, b: Map<Seq<char>, WorldView>) -> bool {
    &&& a.dom() == b.dom()
    &&& forall|name: Seq<char>| #[trigger]
        a.contains_key(name) ==> world::same_world(a[name], b[name])
}

impl PartialEqSpecImpl for SaveManager {
    open spec fn obeys_eq_spec() -> bool {
        true
    }

    open spec fn eq_spec(&self, other: &Self) -> bool {
        same_saves(self@, other@)
    }
}

impl PartialEq for SaveManager {
    fn eq(&self, other: &Self) -> (equal: bool) {
        proof {
            use_type_invariant(&*self);
            use_type_invariant(&*other);
            lemma_contents_len(self.entries());
            lemma_contents_len(other.entries());
        }
        self.slots.len() == other.slots.len() && self.saves_stand_in(other)
    }
}

impl SaveManager {
    /// Whether every save stands in `other` too, which holds as many, with an equal world.
    fn saves_stand_in(&self, other: &Self) -> (all: bool)
        requires
            self.entries().len() == other.entries().len(),
        ensures
            all == same_saves(self@, other@),
    {
        proof {
            use_type_invariant(&*self);
            use_type_invariant(&*other);
        }
        let ghost entries = self.entries();
        let mut i: usize = 0;
        while i < self.slots.len()
            invariant
                i <= self.slots.len(),
                entries == self.entries(),
                self.wf(),
                other.wf(),
                forall|j: int|
                    0 <= j < i ==> other@.contains_key((#[trigger] entries[j]).0)
                        && world::same_world(entries[j].1, other@[entries[j].0]),
            decreases self.slots.len() - i,
        {
            let slot = &self.slots[i];
            proof {
                lemma_contents_at(entries, i as int);
                assert(slot@ == entries[i as int]);
            }
            match other.find(slot.name.as_str()) {
                Ok(at) => {
                    if slot.world != other.slots[at].world {
                        return false;
                    }
                },
                Err(_) => {
                    return false;
                },
            }
            i = i + 1;
        }
        proof {
            lemma_same_saves(*self, *other);
        }
        true
    }
}

/// Managers with equally many saves are equal if every save of the one stands in the other.
proof fn lemma_same_saves(a: SaveManager, b: SaveManager)
    requires
        a.wf(),
        b.wf(),
        a.entries().len() == b.entries().len(),
        forall|j: int|
            0 <= j < a.entries().len() ==> b@.contains_key((#[trigger] a.entries()[j]).0)
                && world::same_world(a.entries()[j].1, b@[a.entries()[j].0]),
    ensures
        same_saves(a@, b@),
{
    let entries = a.entries();
    assert forall|name: Seq<char>| #[trigger] a@.contains_key(name) implies b@.contains_key(name)
        && world::same_world(a@[name], b@[name]) by {
        lemma_contents_dom(entries, name);
        let j = choose|j: int| 0 <= j < entries.len() && (#[trigger] entries[j]).0 == name;
        lemma_contents_at(entries, j);
    }
    lemma_contents_len(entries);
    lemma_contents_len(b.entries());
    assert(a@.dom().subset_of(b@.dom()));
    vstd::set_lib::lemma_subset_equality(a@.dom(), b@.dom());
}

impl Default for SaveManager {
    fn default() -> (manager: Self)
        ensures
            manager@ == Map::<Seq<char>, WorldView>::empty(),
    {
        Self::new()
    }
}

/// Reads the save at offset `at`; also returns how many bytes it takes.
fn read_entry(data: &[u8], at: usize) -> (result: Result<(String, WorldSave, usize), SaveError>)
    requires
        at <= data.len(),
    ensures
        match result {
            Ok((name, world, taken)) => at + taken <= data.len() && parse_entry(
                data@.skip(at as int),
            ) == Ok::<_, crate::error::SaveErrorView>(((name@, world@), taken as nat)),
            Err(error) => parse_entry(data@.skip(at as int)) == Err::<(Entry, nat), _>(error@),
        },
{
    let (name, name_end) = match text::read_text(data, at, "invalid utf-8 in save name: ") {
        Ok((name, taken)) => (name, at + taken),
        Err(error) => return Err(error),
    };
    assert(data@.skip(at as int).skip(name_end - at) =~= data@.skip(name_end as int));
    match read_world(data, name_end) {
        Ok((world, taken)) => Ok((name, world, name_end - at + taken)),
        Err(error) => Err(error),
    }
}

/// Reads the world at offset `at`; also returns how many bytes it takes.
fn read_world(data: &[u8], at: usize) -> (result: Result<(WorldSave, usize), SaveError>)
    requires
        at <= data.len(),
    ensures
        crate::error::outcome(result) == world::parse_world_prefix(data@.skip(at as int)),
        result matches Ok((_, taken)) ==> at + taken <= data.len(),
{
    let rest = slice_subrange(data, at, data.len());
    assert(rest@ =~= data@.skip(at as int));
    WorldSave::decode_prefix(rest)
}

/// A saved world is loaded under its name; all else is loaded as before. The number of saves grows
/// if nothing had that name.
pub proof fn law_saved_world_is_loaded(
    before: SaveManager,
    after: SaveManager,
    name: Seq<char>,
    world: WorldView,
    other: Seq<char>,
)
    requires
        before.wf(),
        after@ == before@.insert(name, world),
    ensures
        after@.contains_key(name),
        after@[name] == world,
        other != name ==> after@.contains_key(other) == before@.contains_key(other),
        other != name && before@.contains_key(other) ==> after@[other] == before@[other],
        after@.len() == before@.len() + (if before@.contains_key(name) {
            0int
        } else {
            1int
        }),
{
    lemma_contents_len(before.entries());
    if before@.contains_key(name) {
        assert(after@.dom() =~= before@.dom());
    }
}

/// A deleted save is not loaded any more; all else is loaded as before. The number of saves
/// shrinks if there was such a save.
pub proof fn law_deleted_save_is_gone(
    before: SaveManager,
    after: SaveManager,
    name: Seq<char>,
    other: Seq<char>,
)
    requires
        before.wf(),
        after@ == before@.remove(name),
    ensures
        !after@.contains_key(name),
        other != name ==> after@.contains_key(other) == before@.contains_key(other),
        other != name && before@.contains_key(other) ==> after@[other] == before@[other],
        after@.len() == before@.len() - (if before@.contains_key(name) {
            1int
        } else {
            0int
        }),
{
    lemma_contents_len(before.entries());
    if !before@.contains_key(name) {
        assert(after@ =~= before@);
    }
}

/// Deleting a save of a new name undoes the saving.
pub proof fn law_delete_undoes_save(
    before: SaveManager,
    between: SaveManager,
    after: SaveManager,
    name: Seq<char>,
    world: WorldView,
)
    requires
        !before@.contains_key(name),
        between@ == before@.insert(name, world),
        after@ == between@.remove(name),
    ensures
        after@ == before@,
{
    assert(after@ =~= before@);
}

/// Ordered entries are determined by what is saved under which name.
proof fn lemma_entries_determined(a: Seq<Entry>, b: Seq<Entry>)
    requires
        entries_ordered(a),
        entries_ordered(b),
        contents(a) == contents(b),
    ensures
        a == b,
    decreases a.len(),
{
    lemma_contents_len(a);
    lemma_contents_len(b);
    if a.len() > 0 {
        let last = a.len() - 1;
        lemma_contents_at(a, last);
        lemma_contents_at(b, last);
        lemma_contents_dom(a, b[last].0);
        lemma_contents_dom(b, a[last].0);
        let i = choose|i: int| 0 <= i < a.len() && (#[trigger] a[i]).0 == b[last].0;
        let j = choose|j: int| 0 <= j < b.len() && (#[trigger] b[j]).0 == a[last].0;
        if i < last && j < last {
            assert(order::name_precedes(entry_names(a)[i], entry_names(a)[last]));
            assert(order::name_precedes(entry_names(b)[j], entry_names(b)[last]));
            order::lemma_transitive(a[i].0, a[last].0, b[last].0);
            order::lemma_irreflexive(b[last].0);
        }
        lemma_entry_removed(a, last);
        lemma_entry_removed(b, last);
        lemma_entries_determined(a.remove(last), b.remove(last));
        assert(a =~= a.remove(last).push(a[last]));
        assert(b =~= b.remove(last).push(b[last]));
    }
}

/// The entries of a manager are its saves, each of them once.
pub proof fn law_entries_are_the_saves(manager: SaveManager)
    requires
        manager.wf(),
    ensures
        manager.entries().len() == manager@.len(),
        entry_names(manager.entries()).to_set() == manager@.dom(),
        forall|i: int|
            0 <= i < manager.entries().len() ==> manager@[(#[trigger] manager.entries()[i]).0]
                == manager.entries()[i].1,
{
    let entries = manager.entries();
    lemma_contents_len(entries);
    lemma_names_are_dom(entries);
    assert forall|i: int| 0 <= i < entries.len() implies manager@[(#[trigger] entries[i]).0]
        == entries[i].1 by {
        lemma_contents_at(entries, i);
    }
}

/// Managers that hold the same saves write the same archive, however they came to hold them.
pub proof fn law_archive_is_determined_by_the_saves(a: SaveManager, b: SaveManager)
    requires
        a.wf(),
        b.wf(),
        a@ == b@,
    ensures
        archive_bytes(a.entries()) == archive_bytes(b.entries()),
{
    lemma_entries_determined(a.entries(), b.entries());
}

/// Whether a save is read back from an archive as it was written, but for the recomputed header of
/// its world: the world is storable, and the length of the name fits in four bytes.
pub open spec fn entry_storable(entry: Entry) -> bool {
    vstd::utf8::encode_utf8(entry.0).len() <= u32::MAX && world::world_storable(entry.1)
}

/// Whether each of the entries is read back from an archive.
spec fn entries_storable(entries: Seq<Entry>) -> bool {
    forall|i: int| 0 <= i < entries.len() ==> entry_storable(#[trigger] entries[i])
}

/// Whether all saves are read back from an archive, and their number fits in four bytes.
pub open spec fn saves_storable(saves: Map<Seq<char>, WorldView>) -> bool {
    &&& saves.len() <= u32::MAX
    &&& forall|name: Seq<char>| #[trigger]
        saves.contains_key(name) ==> entry_storable((name, saves[name]))
}

/// All saves, each world with the header that it is encoded with.
pub open spec fn sealed_saves(saves: Map<Seq<char>, WorldView>) -> Map<Seq<char>, WorldView> {
    saves.map_values(|world: WorldView| world::sealed(world))
}

/// An entry, its world with the header that it is encoded with.
#[verifier::opaque]
spec fn sealed_entry(entry: Entry) -> Entry {
    (entry.0, world::sealed(entry.1))
}

/// Entries, each world with the header that it is encoded with.
spec fn sealed_entries(entries: Seq<Entry>) -> Seq<Entry> {
    Seq::new(entries.len(), |i: int| sealed_entry(entries[i]))
}

/// The first of sealed entries, and the others.
proof fn lemma_sealed_first(entries: Seq<Entry>)
    requires
        entries.len() > 0,
    ensures
        sealed_entries(entries) == seq![sealed_entry(entries[0])] + sealed_entries(
            entries.drop_first(),
        ),
{
    assert(sealed_entries(entries) =~= seq![sealed_entry(entries[0])] + sealed_entries(
        entries.drop_first(),
    ));
}

/// Sealing the worlds of entries seals the saves.
proof fn lemma_sealed_contents(entries: Seq<Entry>)
    ensures
        contents(sealed_entries(entries)) == sealed_saves(contents(entries)),
    decreases entries.len(),
{
    reveal(sealed_entry);
    let sealed = sealed_entries(entries);
    if entries.len() > 0 {
        lemma_sealed_contents(entries.drop_last());
        assert(sealed.drop_last() =~= sealed_entries(entries.drop_last()));
    }
    assert(contents(sealed) =~= sealed_saves(contents(entries)));
}

/// Sealing its world keeps the bytes of a save.
proof fn lemma_sealed_entry_bytes(entry: Entry)
    ensures
        entry_bytes(sealed_entry(entry)) == entry_bytes(entry),
{
    reveal(sealed_entry);
    world::law_sealing_keeps_the_bytes(entry.1);
}

/// Sealing the worlds of entries keeps their bytes.
proof fn lemma_sealed_bytes(entries: Seq<Entry>)
    ensures
        entries_bytes(sealed_entries(entries)) == entries_bytes(entries),
{
    let sealed = sealed_entries(entries);
    let parts = Seq::new(entries.len(), |i: int| entry_bytes(entries[i]));
    let sealed_parts = Seq::new(sealed.len(), |i: int| entry_bytes(sealed[i]));
    assert forall|i: int| 0 <= i < parts.len() implies #[trigger] sealed_parts[i] == parts[i] by {
        lemma_sealed_entry_bytes(entries[i]);
    }
    assert(sealed_parts =~= parts);
}

/// The bytes of saves, split off at the front.
proof fn lemma_first_entry(entries: Seq<Entry>)
    requires
        entries.len() > 0,
    ensures
        entries_bytes(entries) == entry_bytes(entries[0]) + entries_bytes(entries.drop_first()),
{
    let others = entries.drop_first();
    let parts = Seq::new(entries.len(), |i: int| entry_bytes(entries[i]));
    bytes::lemma_concat_first(parts);
    assert(parts.drop_first() =~= Seq::new(others.len(), |i: int| entry_bytes(others[i])));
}

/// The bytes of saves, split off at the back.
proof fn lemma_last_entry(entries: Seq<Entry>)
    requires
        entries.len() > 0,
    ensures
        entries_bytes(entries) == entries_bytes(entries.drop_last()) + entry_bytes(entries.last()),
{
    let init = entries.drop_last();
    let parts = Seq::new(entries.len(), |i: int| entry_bytes(entries[i]));
    assert(parts.drop_last() =~= Seq::new(init.len(), |i: int| entry_bytes(init[i])));
}

/// A storable save is read back with its world sealed, whatever follows it.
proof fn lemma_entry_is_read_back(entry: Entry, rest: Seq<u8>)
    requires
        entry_storable(entry),
    ensures
        parse_entry(entry_bytes(entry) + rest) == Ok::<_, crate::error::SaveErrorView>(
            (sealed_entry(entry), entry_bytes(entry).len()),
        ),
{
    let label = "invalid utf-8 in save name: "@;
    let name = text::text_bytes(entry.0);
    let content = world::world_bytes(entry.1);
    let data = entry_bytes(entry) + rest;
    assert(data == name + (content + rest)) by {
        bytes::lemma_regroup(name, content, rest);
    }
    assert(text::parse_text(data, label) == Ok::<_, crate::error::SaveErrorView>(
        (entry.0, name.len()),
    )) by {
        text::lemma_text_is_read_back(entry.0, content + rest, label);
    }
    assert(data.skip(name.len() as int) == content + rest) by {
        bytes::lemma_skip_front(name, content + rest);
    }
    reveal(sealed_entry);
    world::law_world_delimits_itself(entry.1, rest);
}

/// The first of several saves that were read, and the others.
proof fn lemma_entries_read(data: Seq<u8>, count: nat, first: Entry, taken: nat)
    requires
        count > 0,
        parse_entry(data) == Ok::<_, crate::error::SaveErrorView>((first, taken)),
    ensures
        parse_entries(data, count) == (match parse_entries(
            data.skip(taken as int),
            (count - 1) as nat,
        ) {
            Err(error) => Err(error),
            Ok(others) => Ok(seq![first] + others),
        }),
{
}

/// Storable saves are read back with their worlds sealed, whatever follows them.
proof fn lemma_entries_are_read_back(entries: Seq<Entry>, rest: Seq<u8>)
    requires
        entries_storable(entries),
    ensures
        parse_entries(entries_bytes(entries) + rest, entries.len()) == Ok::<
            _,
            crate::error::SaveErrorView,
        >(sealed_entries(entries)),
    decreases entries.len(),
{
    if entries.len() > 0 {
        let first = entries[0];
        let sealed_first = sealed_entry(first);
        let others = entries.drop_first();
        let data = entries_bytes(entries) + rest;
        let after = entries_bytes(others) + rest;
        let size = entry_bytes(first).len();
        assert(data == entry_bytes(first) + after) by {
            lemma_first_entry(entries);
            bytes::lemma_regroup(entry_bytes(first), entries_bytes(others), rest);
        }
        assert(parse_entry(data) == Ok::<_, crate::error::SaveErrorView>((sealed_first, size))) by {
            lemma_entry_is_read_back(first, after);
        }
        lemma_entries_read(data, entries.len(), sealed_first, size);
        assert(data.skip(size as int) == after) by {
            bytes::lemma_skip_front(entry_bytes(first), after);
        }
        lemma_others_storable(entries);
        lemma_entries_are_read_back(others, rest);
        lemma_sealed_first(entries);
    } else {
        assert(sealed_entries(entries) =~= Seq::<Entry>::empty());
    }
}

/// The entries after the first are as storable as all.
proof fn lemma_others_storable(entries: Seq<Entry>)
    requires
        entries_storable(entries),
        entries.len() > 0,
    ensures
        entries_storable(entries.drop_first()),
{
    let others = entries.drop_first();
    assert forall|i: int| 0 <= i < others.len() implies entry_storable(#[trigger] others[i]) by {
        assert(others[i] == entries[i + 1]);
    }
}

/// The entries of storable saves are storable, and their number is read back.
proof fn lemma_saves_storable(manager: SaveManager)
    requires
        manager.wf(),
        saves_storable(manager@),
    ensures
        entries_storable(manager.entries()),
        manager.entries().len() <= u32::MAX,
{
    let entries = manager.entries();
    lemma_contents_len(entries);
    assert forall|i: int| 0 <= i < entries.len() implies entry_storable(#[trigger] entries[i]) by {
        lemma_contents_at(entries, i);
    }
}

/// The saves read from the archive of a manager, whatever follows it, are those of the manager,
/// each world with the header that it was encoded with.
pub proof fn law_archive_is_read_back(manager: SaveManager, rest: Seq<u8>)
    requires
        manager.wf(),
        saves_storable(manager@),
    ensures
        parse_archive(archive_bytes(manager.entries()) + rest) == Ok::<
            _,
            crate::error::SaveErrorView,
        >(sealed_saves(manager@)),
{
    let entries = manager.entries();
    let count = bytes::le_bytes(entries.len(), 4);
    let after = entries_bytes(entries) + rest;
    lemma_saves_storable(manager);
    bytes::lemma_le_bytes_len(entries.len(), 4);
    bytes::lemma_regroup(count, entries_bytes(entries), rest);
    assert((count + after).subrange(0, 4) =~= count);
    bytes::lemma_u32_stored(count + after, 0, entries.len() as u32);
    bytes::lemma_skip_front(count, after);
    lemma_entries_are_read_back(entries, rest);
    lemma_sealed_contents(entries);
}

/// A manager read from the archive of another, whatever follows it, writes the same archive.
pub proof fn law_read_archive_is_written_again(
    written: SaveManager,
    read: SaveManager,
    rest: Seq<u8>,
)
    requires
        written.wf(),
        saves_storable(written@),
        read.wf(),
        parse_archive(archive_bytes(written.entries()) + rest) == Ok::<
            _,
            crate::error::SaveErrorView,
        >(read@),
    ensures
        archive_bytes(read.entries()) == archive_bytes(written.entries()),
{
    let entries = written.entries();
    law_archive_is_read_back(written, rest);
    lemma_sealed_contents(entries);
    lemma_sealed_bytes(entries);
    assert(entry_names(sealed_entries(entries)) =~= entry_names(entries)) by {
        reveal(sealed_entry);
    }
    lemma_entries_determined(read.entries(), sealed_entries(entries));
}

/// A save that was read is storable.
proof fn lemma_read_entry_is_storable(data: Seq<u8>)
    ensures
        parse_entry(data) matches Ok((entry, _)) ==> entry_storable(entry),
{
    if parse_entry(data) is Ok {
        let label = "invalid utf-8 in save name: "@;
        let name_end = text::parse_text(data, label)->Ok_0.1 as int;
        text::lemma_read_text_is_written_back(data, label);
        world::law_decoded_prefix_is_a_world(data.skip(name_end));
    }
}

/// Saves that were read are storable.
proof fn lemma_read_entries_are_storable(data: Seq<u8>, count: nat)
    ensures
        parse_entries(data, count) matches Ok(entries) ==> {
            &&& entries.len() == count
            &&& entries_storable(entries)
        },
    decreases count,
{
    if count > 0 && parse_entries(data, count) is Ok {
        let (first, taken) = parse_entry(data)->Ok_0;
        let rest = data.skip(taken as int);
        lemma_entries_read(data, count, first, taken);
        assert(entry_storable(first)) by {
            lemma_read_entry_is_storable(data);
        }
        lemma_read_entries_are_storable(rest, (count - 1) as nat);
        let others = parse_entries(rest, (count - 1) as nat)->Ok_0;
        let entries = seq![first] + others;
        assert forall|i: int| 0 <= i < entries.len() implies entry_storable(
            #[trigger] entries[i],
        ) by {
            if i > 0 {
                assert(entries[i] == others[i - 1]);
            }
        }
    }
}

/// The contents of storable entries are storable, and not more than the entries.
proof fn lemma_contents_are_storable(entries: Seq<Entry>)
    requires
        entries_storable(entries),
    ensures
        contents(entries).dom().finite(),
        contents(entries).len() <= entries.len(),
        forall|name: Seq<char>| #[trigger]
            contents(entries).contains_key(name) ==> entry_storable(
                (name, contents(entries)[name]),
            ),
    decreases entries.len(),
{
    if entries.len() > 0 {
        let init = entries.drop_last();
        assert forall|i: int| 0 <= i < init.len() implies entry_storable(#[trigger] init[i]) by {
            assert(init[i] == entries[i]);
        }
        lemma_contents_are_storable(init);
        assert(entry_storable(entries[entries.len() - 1]));
    }
}

/// Saves that were read from an archive are storable, so an archive written of them is read back.
pub proof fn law_read_saves_are_storable(data: Seq<u8>)
    ensures
        parse_archive(data) matches Ok(saves) ==> saves_storable(saves),
{
    if parse_archive(data) is Ok {
        let count = bytes::u32_at(data, 0) as nat;
        lemma_read_entries_are_storable(data.skip(4), count);
        lemma_contents_are_storable(parse_entries(data.skip(4), count)->Ok_0);
    }
}

/// A save that was cut short ends early.
proof fn lemma_cut_entry(entry: Entry, len: int)
    requires
        entry_storable(entry),
        0 <= len < entry_bytes(entry).len(),
    ensures
        parse_entry(entry_bytes(entry).take(len)) == Err::<(Entry, nat), _>(
            crate::error::SaveErrorView::UnexpectedEof,
        ),
{
    let label = "invalid utf-8 in save name: "@;
    let name = text::text_bytes(entry.0);
    let content = world::world_bytes(entry.1);
    bytes::lemma_cut(name, content, len);
    if len < name.len() {
        text::lemma_cut_text(entry.0, len, label);
    } else {
        let left = content.take(len - name.len());
        assert(text::parse_text(name + left, label) == Ok::<_, crate::error::SaveErrorView>(
            (entry.0, name.len()),
        )) by {
            text::lemma_text_is_read_back(entry.0, left, label);
        }
        bytes::lemma_skip_front(name, left);
        world::law_truncated_world_ends_early(entry.1, len - name.len());
    }
}

/// Saves that were cut short end early.
proof fn lemma_cut_entries(entries: Seq<Entry>, len: int)
    requires
        entries_storable(entries),
        0 <= len < entries_bytes(entries).len(),
    ensures
        parse_entries(entries_bytes(entries).take(len), entries.len()) == Err::<Seq<Entry>, _>(
            crate::error::SaveErrorView::UnexpectedEof,
        ),
    decreases entries.len(),
{
    let first = entries[0];
    let others = entries.drop_first();
    let head = entry_bytes(first);
    let after = entries_bytes(others);
    lemma_first_entry(entries);
    bytes::lemma_cut(head, after, len);
    if len < head.len() {
        lemma_cut_entry(first, len);
    } else {
        let left = after.take(len - head.len());
        let sealed_first = sealed_entry(first);
        assert(parse_entry(head + left) == Ok::<_, crate::error::SaveErrorView>(
            (sealed_first, head.len()),
        )) by {
            lemma_entry_is_read_back(first, left);
        }
        lemma_entries_read(head + left, entries.len(), sealed_first, head.len());
        bytes::lemma_skip_front(head, left);
        lemma_others_storable(entries);
        lemma_cut_entries(others, len - head.len());
    }
}

/// An archive that was cut short ends early, wherever it was cut.
pub proof fn law_truncated_archive_is_refused(manager: SaveManager, len: int)
    requires
        manager.wf(),
        saves_storable(manager@),
        0 <= len < archive_bytes(manager.entries()).len(),
    ensures
        parse_archive(archive_bytes(manager.entries()).take(len)) == Err::<
            Map<Seq<char>, WorldView>,
            _,
        >(crate::error::SaveErrorView::UnexpectedEof),
{
    let entries = manager.entries();
    let count = bytes::le_bytes(entries.len(), 4);
    lemma_saves_storable(manager);
    bytes::lemma_le_bytes_len(entries.len(), 4);
    bytes::lemma_cut(count, entries_bytes(entries), len);
    if len >= 4 {
        let left = entries_bytes(entries).take(len - 4);
        assert((count + left).subrange(0, 4) =~= count);
        bytes::lemma_u32_stored(count + left, 0, entries.len() as u32);
        bytes::lemma_skip_front(count, left);
        lemma_cut_entries(entries, len - 4);
    }
}

/// One more entry is in the contents under its name, in place of an earlier one, and leaves the
/// rest as it is.
pub proof fn law_contents_grow(entries: Seq<Entry>, entry: Entry, name: Seq<char>)
    ensures
        contents(Seq::<Entry>::empty()) == Map::<Seq<char>, WorldView>::empty(),
        contents(entries.push(entry)).contains_key(name) <==> name == entry.0 || contents(
            entries,
        ).contains_key(name),
        contents(entries.push(entry))[entry.0] == entry.1,
        name != entry.0 && contents(entries).contains_key(name) ==> contents(
            entries.push(entry),
        )[name] == contents(entries)[name],
{
    assert(entries.push(entry).drop_last() =~= entries);
}

/// The names of entries, and equality of what managers hold.
pub proof fn law_names_and_equality(
    entries: Seq<Entry>,
    i: int,
    a: Map<Seq<char>, WorldView>,
    b: Map<Seq<char>, WorldView>,
)
    ensures
        entry_names(entries).len() == entries.len(),
        0 <= i < entries.len() ==> entry_names(entries)[i] == entries[i].0,
        same_saves(a, b) <==> a.dom() == b.dom() && forall|name: Seq<char>| #[trigger]
            a.contains_key(name) ==> world::same_world(a[name], b[name]),
{
}

/// Sealing saves seals the world under each name and keeps the names.
pub proof fn law_sealed_saves(saves: Map<Seq<char>, WorldView>, name: Seq<char>)
    ensures
        sealed_saves(saves).dom() == saves.dom(),
        saves.contains_key(name) ==> sealed_saves(saves)[name] == world::sealed(saves[name]),
{
    assert(sealed_saves(saves).dom() =~= saves.dom());
}

/// An archive starts with the four bytes of the number of its saves. One more save adds its name,
/// behind the four bytes of its length, and its encoded world at the end.
pub proof fn law_archive_layout(entries: Seq<Entry>, entry: Entry)
    ensures
        archive_bytes(entries).take(4) == bytes::le_bytes(entries.len(), 4),
        archive_bytes(Seq::<Entry>::empty()).skip(4) == Seq::<u8>::empty(),
        archive_bytes(entries.push(entry)).skip(4) == archive_bytes(entries).skip(4)
            + bytes::le_bytes(vstd::utf8::encode_utf8(entry.0).len(), 4)
            + vstd::utf8::encode_utf8(entry.0) + world::world_bytes(entry.1),
{
    let more = entries.push(entry);
    let utf8 = vstd::utf8::encode_utf8(entry.0);
    let len = bytes::le_bytes(utf8.len(), 4);
    lemma_last_entry(more);
    assert(more.drop_last() =~= entries);
    lemma_archive_parts(entries);
    lemma_archive_parts(more);
    lemma_archive_parts(Seq::<Entry>::empty());
    bytes::lemma_regroup(entries_bytes(entries), len, utf8);
    bytes::lemma_regroup(entries_bytes(entries), len + utf8, world::world_bytes(entry.1));
}

/// The number at the start of an archive, and what follows it.
proof fn lemma_archive_parts(entries: Seq<Entry>)
    ensures
        archive_bytes(entries).take(4) == bytes::le_bytes(entries.len(), 4),
        archive_bytes(entries).skip(4) == entries_bytes(entries),
{
    bytes::lemma_le_bytes_len(entries.len(), 4);
    assert(archive_bytes(entries).take(4) =~= bytes::le_bytes(entries.len(), 4));
    bytes::lemma_skip_front(bytes::le_bytes(entries.len(), 4), entries_bytes(entries));
}

/// A save is read as its name, then the world that starts where the name ends. What refuses the
/// one or the other refuses the save.
pub proof fn law_save_is_read_in_turn(data: Seq<u8>)
    ensures
        match text::parse_text(data, "invalid utf-8 in save name: "@) {
            Err(error) => parse_entry(data) == Err::<(Entry, nat), _>(error),
            Ok((name, len)) => match world::parse_world_prefix(data.skip(len as int)) {
                Err(error) => parse_entry(data) == Err::<(Entry, nat), _>(error),
                Ok((world, size)) => parse_entry(data) == Ok::<_, crate::error::SaveErrorView>(
                    ((name, world), len + size),
                ),
            },
        },
{
}

/// A save that was read lies within the data.
proof fn lemma_entry_size(data: Seq<u8>)
    ensures
        parse_entry(data) matches Ok((_, taken)) ==> taken <= data.len(),
{
    if parse_entry(data) is Ok {
        let label = "invalid utf-8 in save name: "@;
        let name_end = text::parse_text(data, label)->Ok_0.1 as int;
        text::lemma_read_text_is_written_back(data, label);
        world::law_decoded_prefix_is_a_world(data.skip(name_end));
    }
}

/// Saves that were read one after the other from the offsets `starts`, and what is left to read.
proof fn lemma_entries_in_turn(data: Seq<u8>, count: nat, starts: Seq<int>, entries: Seq<Entry>)
    requires
        starts.len() == entries.len() + 1,
        entries.len() <= count,
        0 <= starts[0] <= data.len(),
        forall|i: int|
            0 <= i < entries.len() ==> (#[trigger] parse_entry(data.skip(starts[i])) matches Ok(
                (entry, taken),
            ) && entry == entries[i] && starts[i + 1] == starts[i] + taken),
    ensures
        starts[0] <= starts.last() <= data.len(),
        parse_entries(data.skip(starts[0]), count) == (match parse_entries(
            data.skip(starts.last()),
            (count - entries.len()) as nat,
        ) {
            Ok(others) => Ok(entries + others),
            Err(error) => Err(error),
        }),
    decreases entries.len(),
{
    let k = entries.len() as int;
    if k > 0 {
        let init = entries.drop_last();
        let at = starts[k - 1];
        assert(starts.drop_last().last() == at);
        lemma_entries_in_turn(data, count, starts.drop_last(), init);
        lemma_entry_size(data.skip(at));
        let taken = parse_entry(data.skip(at))->Ok_0.1;
        lemma_entries_read(data.skip(at), (count - k + 1) as nat, entries[k - 1], taken);
        assert(data.skip(at).skip(taken as int) =~= data.skip(starts[k]));
        if let Ok(others) = parse_entries(data.skip(starts[k]), (count - k) as nat) {
            assert(init + (seq![entries[k - 1]] + others) =~= entries + others);
        }
    } else {
        if let Ok(others) = parse_entries(data.skip(starts[0]), count) {
            assert(entries + others =~= others);
        }
    }
}

/// The last entry of a name counts.
proof fn lemma_last_of_a_name(entries: Seq<Entry>, i: int)
    requires
        0 <= i < entries.len(),
        forall|j: int| i < j < entries.len() ==> (#[trigger] entries[j]).0 != entries[i].0,
    ensures
        contents(entries).contains_key(entries[i].0),
        contents(entries)[entries[i].0] == entries[i].1,
    decreases entries.len(),
{
    if i < entries.len() - 1 {
        let init = entries.drop_last();
        assert forall|j: int| i < j < init.len() implies (#[trigger] init[j]).0 != init[i].0 by {
            assert(init[j] == entries[j]);
        }
        lemma_last_of_a_name(init, i);
        assert(entries[entries.len() - 1].0 != entries[i].0);
    }
}

/// An archive is read save by save, each from where the one before it ends. If as many as the
/// archive announces can be read, all of them are held, the last of each name, and nothing else is.
/// If fewer can, the archive is refused for what refuses the first that cannot.
pub proof fn law_archive_is_read_in_turn(
    data: Seq<u8>,
    starts: Seq<int>,
    entries: Seq<Entry>,
    name: Seq<char>,
)
    requires
        data.len() >= 4,
        starts.len() == entries.len() + 1,
        starts[0] == 4,
        entries.len() <= data[0] + 0x100 * data[1] + 0x1_0000 * data[2] + 0x100_0000 * data[3],
        forall|i: int|
            0 <= i < entries.len() ==> (#[trigger] parse_entry(data.skip(starts[i])) matches Ok(
                (entry, taken),
            ) && entry == entries[i] && starts[i + 1] == starts[i] + taken),
    ensures
        ({
            let count = data[0] + 0x100 * data[1] + 0x1_0000 * data[2] + 0x100_0000 * data[3];
            &&& entries.len() == count ==> match parse_archive(data) {
                Err(_) => false,
                Ok(saves) => {
                    &&& saves.contains_key(name) <==> exists|i: int|
                        0 <= i < entries.len() && (#[trigger] entries[i]).0 == name
                    &&& forall|i: int|
                        0 <= i < entries.len() && (forall|j: int|
                            i < j < entries.len() ==> (#[trigger] entries[j]).0 != entries[i].0)
                            ==> saves[(#[trigger] entries[i]).0] == entries[i].1
                },
            }
            &&& entries.len() < count ==> match parse_entry(data.skip(starts.last())) {
                Err(error) => parse_archive(data) == Err::<Map<Seq<char>, WorldView>, _>(error),
                Ok(_) => true,
            }
        }),
{
    let count = bytes::u32_at(data, 0) as nat;
    bytes::law_u32_at(data, 0);
    lemma_entries_in_turn(data, count, starts, entries);
    if entries.len() == count {
        assert(entries + Seq::<Entry>::empty() =~= entries);
        lemma_contents_dom(entries, name);
        assert forall|i: int|
            0 <= i < entries.len() && (forall|j: int|
                i < j < entries.len() ==> (#[trigger] entries[j]).0
                    != entries[i].0) implies contents(entries)[(#[trigger] entries[i]).0]
            == entries[i].1 by {
            lemma_last_of_a_name(entries, i);
        }
    }
}

/// The saves that an archive was read from, and where each starts.
proof fn lemma_turns(data: Seq<u8>, at: int, count: nat) -> (turns: (Seq<int>, Seq<Entry>))
    requires
        0 <= at <= data.len(),
        parse_entries(data.skip(at), count) is Ok,
    ensures
        turns.0.len() == count + 1,
        turns.0[0] == at,
        turns.1 == parse_entries(data.skip(at), count)->Ok_0,
        turns.1.len() == count,
        forall|i: int|
            0 <= i < count ==> (#[trigger] parse_entry(data.skip(turns.0[i])) matches Ok(
                (entry, taken),
            ) && entry == turns.1[i] && turns.0[i + 1] == turns.0[i] + taken),
    decreases count,
{
    if count == 0 {
        (seq![at], Seq::empty())
    } else {
        let (first, taken) = parse_entry(data.skip(at))->Ok_0;
        let next = at + taken;
        lemma_entry_size(data.skip(at));
        lemma_entries_read(data.skip(at), count, first, taken);
        assert(data.skip(at).skip(taken as int) =~= data.skip(next));
        let (starts, entries) = lemma_turns(data, next, (count - 1) as nat);
        let turns = (seq![at] + starts, seq![first] + entries);
        assert forall|i: int| 0 <= i < count implies (#[trigger] parse_entry(
            data.skip(turns.0[i]),
        ) matches Ok((entry, taken)) && entry == turns.1[i] && turns.0[i + 1] == turns.0[i]
            + taken) by {
            if i > 0 {
                assert(turns.0[i] == starts[i - 1]);
                assert(parse_entry(data.skip(starts[i - 1])) is Ok);
            }
        }
        turns
    }
}

/// Every archive that is accepted holds as many saves, read one after the other, as it announces,
/// and none of them is lost. The result names them, with the offset at which each starts.
pub proof fn law_accepted_archive_is_read_whole(data: Seq<u8>) -> (turns: (Seq<int>, Seq<Entry>))
    ensures
        parse_archive(data) matches Ok(saves) ==> {
            let (starts, entries) = turns;
            &&& data.len() >= 4
            &&& entries.len() == data[0] + 0x100 * data[1] + 0x1_0000 * data[2] + 0x100_0000
                * data[3]
            &&& starts.len() == entries.len() + 1
            &&& starts[0] == 4
            &&& forall|i: int|
                0 <= i < entries.len() ==> (#[trigger] parse_entry(data.skip(starts[i])) matches Ok(
                    (entry, taken),
                ) && entry == entries[i] && starts[i + 1] == starts[i] + taken)
            &&& forall|i: int|
                0 <= i < entries.len() ==> saves.contains_key((#[trigger] entries[i]).0)
        },
{
    if parse_archive(data) is Ok {
        let count = bytes::u32_at(data, 0) as nat;
        bytes::law_u32_at(data, 0);
        let turns = lemma_turns(data, 4, count);
        let entries = turns.1;
        assert forall|i: int| 0 <= i < entries.len() implies contents(entries).contains_key(
            (#[trigger] entries[i]).0,
        ) by {
            lemma_contents_dom(entries, entries[i].0);
        }
        turns
    } else {
        (Seq::empty(), Seq::empty())
    }
}

/// An archive that is too short for the number of its saves ends early.
pub proof fn law_archive_without_count_ends_early(data: Seq<u8>)
    requires
        data.len() < 4,
    ensures
        parse_archive(data) == Err::<Map<Seq<char>, WorldView>, _>(
            crate::error::SaveErrorView::UnexpectedEof,
        ),
{
}

/// `==` on managers is equality of what they stand for.
pub proof fn law_equality_of_managers(a: SaveManager, b: SaveManager)
    ensures
        <SaveManager as PartialEqSpec>::obeys_eq_spec(),
        PartialEqSpec::eq_spec(&a, &b) <==> same_saves(a@, b@),
{
}

} // verus!
