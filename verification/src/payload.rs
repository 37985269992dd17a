//! Tagged parameter values and the payload that maps parameter names to
//! them.

use vstd::prelude::*;

verus! {

/// A parameter value with its dynamic tag. A float is held as the bit
/// pattern of its IEEE 754 double.
#[derive(Debug, PartialEq, Eq)]
pub enum ParamType {
    String(String),
    Int(i32),
    Float(u64),
    Bool(bool),
}

/// View of a [`ParamType`].
pub enum ParamView {
    String(Seq<char>),
    Int(i32),
    Float(u64),
    Bool(bool),
}

impl View for ParamType {
    type V = ParamView;

    open spec fn view(&self) -> ParamView {
        match self {
            ParamType::String(s) => ParamView::String(s@),
            ParamType::Int(i) => ParamView::Int(*i),
            ParamType::Float(bits) => ParamView::Float(*bits),
            ParamType::Bool(b) => ParamView::Bool(*b),
        }
    }
}

impl Clone for ParamType {
    fn clone(&self) -> (r: Self)
        ensures
            r == *self,
    {
        match self {
            ParamType::String(s) => ParamType::String(s.clone()),
            ParamType::Int(i) => ParamType::Int(*i),
            ParamType::Float(bits) => ParamType::Float(*bits),
            ParamType::Bool(b) => ParamType::Bool(*b),
        }
    }
}

/// One entry of a payload.
#[derive(Debug)]
pub struct Param {
    pub name: String,
    pub value: ParamType,
}

/// The map that a list of entries stands for; of two entries with one name
/// the later one counts.
pub open spec fn entries_map(entries: Seq<Param>) -> Map<Seq<char>, ParamView>
    decreases entries.len(),
{
    if entries.len() == 0 {
        Map::empty()
    } else {
        entries_map(entries.drop_last()).insert(entries.last().name@, entries.last().value@)
    }
}

/// No two entries carry the same name.
pub open spec fn distinct_names(entries: Seq<Param>) -> bool {
    forall|i: int, j: int|
        0 <= i < j < entries.len() ==> (#[trigger] entries[i]).name@ != (#[trigger] entries[j]).name@
}

/// Whether some entry carries the name `key`.
pub open spec fn has_name(entries: Seq<Param>, key: Seq<char>) -> bool {
    exists|i: int| 0 <= i < entries.len() && (#[trigger] entries[i]).name@ == key
}

/// The keys of the map are the names of the entries.
pub proof fn lemma_entries_map_domain(entries: Seq<Param>)
    ensures
        forall|key: Seq<char>| #[trigger]
            entries_map(entries).contains_key(key) <==> has_name(entries, key),
        entries_map(entries).dom().finite(),
    decreases entries.len(),
{
    if entries.len() > 0 {
        let front = entries.drop_last();
        lemma_entries_map_domain(front);
        assert forall|key: Seq<char>| #[trigger]
            entries_map(entries).contains_key(key) <==> has_name(entries, key) by {
            if has_name(entries, key) {
                let i = choose|i: int| 0 <= i < entries.len() && (#[trigger] entries[i]).name@ == key;
                if i < entries.len() - 1 {
                    assert(front[i].name@ == key);
                    assert(has_name(front, key));
                }
            }
            if entries_map(entries).contains_key(key) {
                if key != entries.last().name@ {
                    assert(has_name(front, key));
                    let i = choose|i: int| 0 <= i < front.len() && (#[trigger] front[i]).name@ == key;
                    assert(entries[i].name@ == key);
                } else {
                    assert(entries[entries.len() - 1].name@ == key);
                }
            }
        }
    }
}

/// With distinct names, every entry is the value of the map at its name.
pub proof fn lemma_entries_map_value(entries: Seq<Param>, i: int)
    requires
        distinct_names(entries),
        0 <= i < entries.len(),
    ensures
        entries_map(entries).contains_key(entries[i].name@),
        entries_map(entries)[entries[i].name@] == entries[i].value@,
    decreases entries.len(),
{
    let front = entries.drop_last();
    if i < entries.len() - 1 {
        assert(front[i] == entries[i]);
        assert(entries[i].name@ != entries[entries.len() - 1].name@);
        lemma_entries_map_value(front, i);
    }
}

/// The entries with `entry` put in: in place of every entry of its name, or
/// at the end where none has it.
pub open spec fn put_entry(entries: Seq<Param>, entry: Param) -> Seq<Param> {
    if has_name(entries, entry.name@) {
        Seq::new(
            entries.len(),
            |k: int|
                if entries[k].name@ == entry.name@ {
                    entry
                } else {
                    entries[k]
                },
        )
    } else {
        entries.push(entry)
    }
}

/// A payload: a finite map from parameter names to tagged values.
#[derive(Debug)]
pub struct Params {
    entries: Vec<Param>,
}

impl View for Params {
    type V = Map<Seq<char>, ParamView>;

    closed spec fn view(&self) -> Map<Seq<char>, ParamView> {
        entries_map(self.entries@)
    }
}

impl Params {
    #[verifier::type_invariant]
    spec fn well_formed(self) -> bool {
        distinct_names(self.entries@)
    }

    /// The entries, one for each name, in the order in which the names came
    /// in.
    pub closed spec fn entries(&self) -> Seq<Param> {
        self.entries@
    }

    /// What the entries say of the map: it is the map of the entries, and
    /// its keys are their names.
    pub proof fn lemma_entries(&self)
        ensures
            self@ == entries_map(self.entries()),
            self@.dom().finite(),
            forall|key: Seq<char>| #[trigger]
                self@.contains_key(key) <==> has_name(self.entries(), key),
    {
        lemma_entries_map_domain(self.entries@);
    }

    /// The empty payload.
    pub fn new() -> (r: Params)
        ensures
            r@ == Map::<Seq<char>, ParamView>::empty(),
            r.entries().len() == 0,
    {
        Params { entries: Vec::new() }
    }

    /// The number of entries, whose names are distinct.
    pub fn len(&self) -> (r: usize)
        ensures
            r == self.entries().len(),
            distinct_names(self.entries()),
    {
        proof {
            use_type_invariant(self);
        }
        self.entries.len()
    }

    /// The entry at position `index`.
    pub fn entry(&self, index: usize) -> (r: &Param)
        requires
            index < self.entries().len(),
        ensures
            *r == self.entries()[index as int],
            self@.contains_key(r.name@),
            self@[r.name@] == r.value@,
    {
        proof {
            use_type_invariant(self);
            lemma_entries_map_value(self.entries@, index as int);
        }
        &self.entries[index]
    }

    /// The position of the entry named `key`, if there is one.
    pub fn position(&self, key: &String) -> (r: Option<usize>)
        ensures
            match r {
                Some(i) => i < self.entries().len() && self.entries()[i as int].name@ == key@,
                None => !has_name(self.entries(), key@),
            },
    {
        let mut i: usize = 0;
        while i < self.entries.len()
            invariant
                i <= self.entries@.len(),
                forall|j: int| 0 <= j < i ==> (#[trigger] self.entries@[j]).name@ != key@,
            decreases self.entries@.len() - i,
        {
            if self.entries[i].name == *key {
                return Some(i);
            }
            i += 1;
        }
        None
    }

    /// The value at `key`, if the payload has one.
    pub fn get(&self, key: &String) -> (r: Option<&ParamType>)
        ensures
            match r {
                Some(value) => self@.contains_key(key@) && value@ == self@[key@],
                None => !self@.contains_key(key@),
            },
    {
        proof {
            self.lemma_entries();
        }
        match self.position(key) {
            Some(i) => Some(&self.entry(i).value),
            None => None,
        }
    }

    /// Whether the payload has a value at `key`.
    pub fn contains_key(&self, key: &String) -> (r: bool)
        ensures
            r == self@.contains_key(key@),
    {
        self.get(key).is_some()
    }

    /// Sets the value at `key`: the entry of that name is replaced where it
    /// stands, and a new name gets an entry behind the others.
    pub fn insert(&mut self, key: String, value: ParamType)
        ensures
            final(self)@ == old(self)@.insert(key@, value@),
            final(self).entries() == put_entry(old(self).entries(), Param { name: key, value }),
    {
        proof {
            use_type_invariant(&*self);
        }
        let found = self.position(&key);
        let mut taken = Params::new();
        std::mem::swap(self, &mut taken);
        let Params { entries } = taken;
        let mut entries = entries;
        let ghost before = entries@;
        match found {
            Some(i) => {
                entries.set(i, Param { name: key, value });
                proof {
                    lemma_entries_map_update(before, i as int, entries@[i as int]);
                    assert(entries@ =~= put_entry(before, entries@[i as int])) by {
                        assert forall|k: int| 0 <= k < before.len() implies entries@[k]
                            == #[trigger] put_entry(before, entries@[i as int])[k] by {
                            if k != i {
                                if k < i {
                                    assert(before[k].name@ != before[i as int].name@);
                                } else {
                                    assert(before[i as int].name@ != before[k].name@);
                                }
                            }
                        }
                    }
                }
            },
            None => {
                entries.push(Param { name: key, value });
                assert(entries@.drop_last() =~= before);
                assert forall|i: int, j: int| 0 <= i < j < entries@.len() implies (
                #[trigger] entries@[i]).name@ != (#[trigger] entries@[j]).name@ by {
                    if j == before.len() {
                        assert(before[i].name@ != key@);
                    }
                }
            },
        }
        *self = Params { entries };
    }
}

impl Clone for Params {
    fn clone(&self) -> (r: Self)
        ensures
            r@ == self@,
            r.entries() == self.entries(),
    {
        proof {
            use_type_invariant(self);
        }
        let mut entries: Vec<Param> = Vec::new();
        let mut i: usize = 0;
        while i < self.entries.len()
            invariant
                i <= self.entries@.len(),
                entries@ == self.entries@.subrange(0, i as int),
            decreases self.entries@.len() - i,
        {
            let entry = &self.entries[i];
            entries.push(Param { name: entry.name.clone(), value: entry.value.clone() });
            assert(entries@ =~= self.entries@.subrange(0, i + 1));
            i += 1;
        }
        assert(entries@ =~= self.entries@);
        Params { entries }
    }
}

/// Replacing the value of an entry, with distinct names, sets the map at
/// that name.
pub proof fn lemma_entries_map_update(entries: Seq<Param>, i: int, entry: Param)
    requires
        distinct_names(entries),
        0 <= i < entries.len(),
        entry.name@ == entries[i].name@,
    ensures
        distinct_names(entries.update(i, entry)),
        entries_map(entries.update(i, entry)) == entries_map(entries).insert(
            entry.name@,
            entry.value@,
        ),
    decreases entries.len(),
{
    let after = entries.update(i, entry);
    let front = entries.drop_last();
    if i == entries.len() - 1 {
        assert(after.drop_last() =~= front);
        assert(entries_map(after) =~= entries_map(entries).insert(entry.name@, entry.value@));
    } else {
        assert(front[i] == entries[i]);
        assert(entries[i].name@ != entries[entries.len() - 1].name@);
        lemma_entries_map_update(front, i, entry);
        assert(after.drop_last() =~= front.update(i, entry));
        assert(after.last() == entries.last());
        assert(entries_map(after) =~= entries_map(entries).insert(entry.name@, entry.value@));
    }
    assert forall|a: int, b: int| 0 <= a < b < after.len() implies (#[trigger] after[a]).name@ != (
    #[trigger] after[b]).name@ by {
        assert(entries[a].name@ != entries[b].name@);
    }
}

} // verus!
