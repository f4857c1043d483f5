//! The id payload and its mathematical model.

use vstd::prelude::*;

verus! {

/// The three ways the storage engine can be asked to mint a fresh id.
#[derive(Clone, Copy, Debug, PartialEq, Eq, Structural)]
pub enum Generator {
    Random,
    Uuid,
    Ulid,
}

/// The payload half of a record identifier.
///
/// Two payloads are equal where they are of the same kind and hold the same
/// content, in the same order.
#[derive(Debug)]
pub enum IdValue {
    /// A 64-bit signed integer.
    Number(i64),
    /// A Unicode string.
    Text(String),
    /// An ordered list of payloads; the order is significant.
    Sequence(Vec<IdValue>),
    /// Key and payload pairs, in insertion order. In a well-formed value no
    /// key is empty and none occurs twice.
    Keyed(Vec<(String, IdValue)>),
    /// A request to the engine to mint an id of the given kind. It has no
    /// concrete value, and stands only as the whole payload of an
    /// identifier that is sent out.
    Generated(Generator),
}

/// What an [`IdValue`] stands for: the same tree over unbounded integers and
/// mathematical sequences.
pub enum IdModel {
    Number(int),
    Text(Seq<char>),
    Sequence(Seq<IdModel>),
    Keyed(Seq<(Seq<char>, IdModel)>),
    Generated(Generator),
}

/// The models of a list of payloads, in order.
pub open spec fn item_models(items: Seq<IdValue>) -> Seq<IdModel>
    decreases items,
{
    Seq::new(
        items.len(),
        |i: int|
            if 0 <= i < items.len() {
                items[i]@
            } else {
                arbitrary()
            },
    )
}

/// The models of a list of key and payload pairs, in order.
pub open spec fn entry_models(entries: Seq<(String, IdValue)>) -> Seq<(Seq<char>, IdModel)>
    decreases entries,
{
    Seq::new(
        entries.len(),
        |i: int|
            if 0 <= i < entries.len() {
                (entries[i].0@, entries[i].1@)
            } else {
                arbitrary()
            },
    )
}

impl View for IdValue {
    type V = IdModel;

    open spec fn view(&self) -> IdModel
        decreases self,
    {
        match self {
            IdValue::Number(n) => IdModel::Number(*n as int),
            IdValue::Text(s) => IdModel::Text(s@),
            IdValue::Sequence(items) => IdModel::Sequence(item_models(items@)),
            IdValue::Keyed(entries) => IdModel::Keyed(entry_models(entries@)),
            IdValue::Generated(g) => IdModel::Generated(*g),
        }
    }
}

/// Whether `key` is the key of one of `entries`.
pub open spec fn has_key(entries: Seq<(Seq<char>, IdModel)>, key: Seq<char>) -> bool {
    exists|i: int| 0 <= i < entries.len() && (#[trigger] entries[i]).0 == key
}

impl IdModel {
    /// Whether the value has a canonical form: no map key is empty, and no
    /// generator stands inside a sequence or a map.
    pub open spec fn renderable(self) -> bool
        decreases self,
    {
        match self {
            IdModel::Sequence(items) => forall|i: int|
                0 <= i < items.len() ==> !(#[trigger] items[i] is Generated)
                    && items[i].renderable(),
            IdModel::Keyed(entries) => forall|i: int|
                0 <= i < entries.len() ==> (#[trigger] entries[i]).0.len() > 0 && !(entries[i].1
                    is Generated) && entries[i].1.renderable(),
            _ => true,
        }
    }

    /// Whether the value is one of the data model: it has a canonical form,
    /// its numbers are 64-bit signed integers, and no map holds a key twice.
    pub open spec fn well_formed(self) -> bool
        decreases self,
    {
        match self {
            IdModel::Number(n) => i64::MIN <= n <= i64::MAX,
            IdModel::Text(_) => true,
            IdModel::Generated(_) => true,
            IdModel::Sequence(items) => forall|i: int|
                0 <= i < items.len() ==> !(#[trigger] items[i] is Generated)
                    && items[i].well_formed(),
            IdModel::Keyed(entries) => {
                &&& forall|i: int|
                    0 <= i < entries.len() ==> (#[trigger] entries[i]).0.len() > 0 && !(
                    entries[i].1 is Generated) && entries[i].1.well_formed()
                &&& forall|i: int, j: int|
                    0 <= i < j < entries.len() ==> (#[trigger] entries[i]).0 != (
                    #[trigger] entries[j]).0
            },
        }
    }

    /// A value of the data model has a canonical form.
    pub proof fn lemma_well_formed_renderable(self)
        requires
            self.well_formed(),
        ensures
            self.renderable(),
        decreases self,
    {
        match self {
            IdModel::Sequence(items) => {
                assert forall|i: int| 0 <= i < items.len() implies !(#[trigger] items[i]
                    is Generated) && items[i].renderable() by {
                    items[i].lemma_well_formed_renderable();
                }
            },
            IdModel::Keyed(entries) => {
                assert forall|i: int| 0 <= i < entries.len() implies (#[trigger] entries[i]).0.len()
                    > 0 && !(entries[i].1 is Generated) && entries[i].1.renderable() by {
                    entries[i].1.lemma_well_formed_renderable();
                }
            },
            _ => {},
        }
    }
}

impl IdValue {
    /// Whether this is a generator placeholder.
    pub fn is_generated(&self) -> (b: bool)
        ensures
            b == (self@ is Generated),
    {
        match self {
            IdValue::Generated(_) => true,
            _ => false,
        }
    }

    /// Whether the value is one of the data model: no map key is empty or
    /// occurs twice in its map, and no generator is nested.
    pub fn is_well_formed(&self) -> (b: bool)
        ensures
            b == self@.well_formed(),
        decreases self,
    {
        match self {
            IdValue::Number(_) => true,
            IdValue::Text(_) => true,
            IdValue::Generated(_) => true,
            IdValue::Sequence(items) => {
                let ghost models = item_models(items@);
                let mut i: usize = 0;
                while i < items.len()
                    invariant
                        i <= items.len(),
                        models == item_models(items@),
                        self == IdValue::Sequence(*items),
                        forall|k: int|
                            0 <= k < i ==> !(#[trigger] models[k] is Generated)
                                && models[k].well_formed(),
                    decreases items.len() - i,
                {
                    assert(models[i as int] == items@[i as int]@);
                    assert(decreases_to!(self => self->Sequence_0));
                    if items[i].is_generated() || !items[i].is_well_formed() {
                        return false;
                    }
                    i += 1;
                }
                true
            },
            IdValue::Keyed(entries) => {
                let ghost models = entry_models(entries@);
                let mut i: usize = 0;
                while i < entries.len()
                    invariant
                        i <= entries.len(),
                        models == entry_models(entries@),
                        self == IdValue::Keyed(*entries),
                        forall|k: int|
                            0 <= k < i ==> (#[trigger] models[k]).0.len() > 0 && !(models[k].1
                                is Generated) && models[k].1.well_formed(),
                        forall|k: int, l: int|
                            0 <= k < l < i ==> (#[trigger] models[k]).0 != (#[trigger] models[l]).0,
                    decreases entries.len() - i,
                {
                    assert(models[i as int] == (entries@[i as int].0@, entries@[i as int].1@));
                        assert(decreases_to!(self => self->Keyed_0));
                    let entry = &entries[i];
                    if entry.0.as_str().is_empty() || entry.1.is_generated()
                        || !entry.1.is_well_formed() {
                        return false;
                    }
                    let mut j: usize = 0;
                    while j < i
                        invariant
                            j <= i < entries.len(),
                            models == entry_models(entries@),
                            self@ == IdModel::Keyed(models),
                            forall|k: int|
                                0 <= k < j ==> (#[trigger] models[k]).0 != models[i as int].0,
                        decreases i - j,
                    {
                        assert(models[j as int] == (entries@[j as int].0@, entries@[j as int].1@));
                        if entries[j].0 == entries[i].0 {
                            assert(models[j as int].0 == models[i as int].0);
                            return false;
                        }
                        j += 1;
                    }
                    i += 1;
                }
                true
            },
        }
    }
}

impl Clone for IdValue {
    /// A copy that stands for the same value.
    fn clone(&self) -> (copy: Self)
        ensures
            copy@ == self@,
        decreases self,
    {
        match self {
            IdValue::Number(n) => IdValue::Number(*n),
            IdValue::Text(s) => IdValue::Text(s.clone()),
            IdValue::Generated(g) => IdValue::Generated(*g),
            IdValue::Sequence(items) => {
                let mut copies: Vec<IdValue> = Vec::new();
                let mut i: usize = 0;
                while i < items.len()
                    invariant
                        i <= items.len(),
                        self is Sequence && self->Sequence_0 == *items,
                        item_models(copies@) == item_models(items@).take(i as int),
                    decreases items.len() - i,
                {
                    assert(decreases_to!(self => self->Sequence_0));
                    let item = items[i].clone();
                    proof {
                        assert(item_models(copies@.push(item)) =~= item_models(items@).take(
                            i + 1,
                        )) by {
                            assert(item_models(copies@.push(item)) =~= item_models(copies@).push(
                                item@,
                            ));
                        }
                    }
                    copies.push(item);
                    i += 1;
                }
                assert(item_models(items@).take(items.len() as int) =~= item_models(items@));
                IdValue::Sequence(copies)
            },
            IdValue::Keyed(entries) => {
                let mut copies: Vec<(String, IdValue)> = Vec::new();
                let mut i: usize = 0;
                while i < entries.len()
                    invariant
                        i <= entries.len(),
                        self is Keyed && self->Keyed_0 == *entries,
                        entry_models(copies@) == entry_models(entries@).take(i as int),
                    decreases entries.len() - i,
                {
                    assert(decreases_to!(self => self->Keyed_0));
                    let key = entries[i].0.clone();
                    let value = entries[i].1.clone();
                    proof {
                        assert(entry_models(copies@.push((key, value))) =~= entry_models(
                            entries@,
                        ).take(i + 1)) by {
                            assert(entry_models(copies@.push((key, value))) =~= entry_models(
                                copies@,
                            ).push((key@, value@)));
                        }
                    }
                    copies.push((key, value));
                    i += 1;
                }
                assert(entry_models(entries@).take(entries.len() as int) =~= entry_models(
                    entries@,
                ));
                IdValue::Keyed(copies)
            },
        }
    }
}

impl PartialEq for IdValue {
    fn eq(&self, other: &IdValue) -> (same: bool)
        decreases self,
    {
        match self {
            IdValue::Number(a) => match other {
                IdValue::Number(b) => *a == *b,
                _ => false,
            },
            IdValue::Text(a) => match other {
                IdValue::Text(b) => *a == *b,
                _ => false,
            },
            IdValue::Generated(a) => match other {
                IdValue::Generated(b) => *a == *b,
                _ => false,
            },
            IdValue::Sequence(a) => match other {
                IdValue::Sequence(b) => {
                    if a.len() != b.len() {
                        assert(item_models(a@).len() != item_models(b@).len());
                        return false;
                    }
                    let mut i: usize = 0;
                    while i < a.len()
                        invariant
                            i <= a.len() == b.len(),
                            self is Sequence && self->Sequence_0 == *a,
                            other@ == IdModel::Sequence(item_models(b@)),
                            forall|k: int|
                                0 <= k < i ==> #[trigger] item_models(a@)[k] == item_models(b@)[k],
                        decreases a.len() - i,
                    {
                        assert(decreases_to!(self => self->Sequence_0));
                        if !a[i].eq(&b[i]) {
                            assert(item_models(a@)[i as int] != item_models(b@)[i as int]);
                            return false;
                        }
                        i += 1;
                    }
                    assert(item_models(a@) =~= item_models(b@));
                    true
                },
                _ => false,
            },
            IdValue::Keyed(a) => match other {
                IdValue::Keyed(b) => {
                    if a.len() != b.len() {
                        assert(entry_models(a@).len() != entry_models(b@).len());
                        return false;
                    }
                    let mut i: usize = 0;
                    while i < a.len()
                        invariant
                            i <= a.len() == b.len(),
                            self is Keyed && self->Keyed_0 == *a,
                            other@ == IdModel::Keyed(entry_models(b@)),
                            forall|k: int|
                                0 <= k < i ==> #[trigger] entry_models(a@)[k] == entry_models(
                                    b@,
                                )[k],
                        decreases a.len() - i,
                    {
                        assert(decreases_to!(self => self->Keyed_0));
                        if a[i].0 != b[i].0 || !a[i].1.eq(&b[i].1) {
                            assert(entry_models(a@)[i as int] != entry_models(b@)[i as int]);
                            return false;
                        }
                        i += 1;
                    }
                    assert(entry_models(a@) =~= entry_models(b@));
                    true
                },
                _ => false,
            },
        }
    }
}

impl vstd::std_specs::cmp::PartialEqSpecImpl for IdValue {
    open spec fn obeys_eq_spec() -> bool {
        true
    }

    /// Equality is that of the values that the payloads stand for.
    open spec fn eq_spec(&self, other: &IdValue) -> bool {
        self@ == other@
    }
}

impl Eq for IdValue {

}

} // verus!
