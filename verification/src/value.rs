use vstd::prelude::*;

verus! {

broadcast use vstd::std_specs::vec::group_vec_axioms;

/// Mathematical model of a wire attribute value: the same tree shape as
/// [`AttrValue`], with text as `Seq<char>` and bytes as `Seq<u8>`.  All codec
/// contracts are stated over this model.
pub enum AttrModel {
    /// Text.
    S(Seq<char>),
    /// A number, carried as its decimal text.
    N(Seq<char>),
    /// A boolean.
    Bool(bool),
    /// A byte blob.
    B(Seq<u8>),
    /// The explicit absence of a value.
    Null,
    /// An ordered list of attribute values.
    L(Seq<AttrModel>),
    /// A string-keyed map; keys are unique.
    M(Seq<(Seq<char>, AttrModel)>),
    /// A set of distinct strings.
    Ss(Seq<Seq<char>>),
}

/// A wire attribute value: the tagged-union tree exchanged with the storage
/// layer.  Exactly one variant is populated at a time; a well-formed map has
/// unique keys and a well-formed string set has distinct members (see
/// [`AttrModel::wf`]).
#[derive(Debug, PartialEq)]
pub enum AttrValue {
    /// Text.
    S(String),
    /// A number, carried as its decimal text.
    N(String),
    /// A boolean.
    Bool(bool),
    /// A byte blob.
    B(Vec<u8>),
    /// The explicit absence of a value.
    Null,
    /// An ordered list of attribute values.
    L(Vec<AttrValue>),
    /// A string-keyed map; keys are unique.
    M(Vec<(String, AttrValue)>),
    /// A set of distinct strings.
    Ss(Vec<String>),
}

/// The models of a sequence of attribute values, in order.
pub open spec fn models_of(items: Seq<AttrValue>) -> Seq<AttrModel>
    decreases items,
{
    if items.len() == 0 {
        Seq::empty()
    } else {
        models_of(items.drop_last()).push(items.last()@)
    }
}

/// The models of a sequence of map entries, in order.
pub open spec fn entry_models_of(entries: Seq<(String, AttrValue)>) -> Seq<
    (Seq<char>, AttrModel),
>
    decreases entries,
{
    if entries.len() == 0 {
        Seq::empty()
    } else {
        entry_models_of(entries.drop_last()).push(
            (entries.last().0@, entries.last().1@),
        )
    }
}

impl View for AttrValue {
    type V = AttrModel;

    open spec fn view(&self) -> AttrModel
        decreases self,
    {
        match self {
            AttrValue::S(s) => AttrModel::S(s@),
            AttrValue::N(n) => AttrModel::N(n@),
            AttrValue::Bool(b) => AttrModel::Bool(*b),
            AttrValue::B(bytes) => AttrModel::B(bytes@),
            AttrValue::Null => AttrModel::Null,
            AttrValue::L(items) => AttrModel::L(models_of(items@)),
            AttrValue::M(entries) => AttrModel::M(entry_models_of(entries@)),
            AttrValue::Ss(members) => AttrModel::Ss(
                Seq::new(members@.len(), |i: int| members@[i]@),
            ),
        }
    }
}

impl DeepView for AttrValue {
    type V = AttrModel;

    open spec fn deep_view(&self) -> AttrModel {
        self.view()
    }
}

/// `models_of` is the pointwise view of its argument.
pub proof fn lemma_models_of(items: Seq<AttrValue>)
    ensures
        models_of(items).len() == items.len(),
        forall|i: int| 0 <= i < items.len() ==> models_of(items)[i] == items[i]@,
    decreases items.len(),
{
    if items.len() > 0 {
        lemma_models_of(items.drop_last());
        assert(models_of(items) == models_of(items.drop_last()).push(items.last()@));
        assert forall|i: int| 0 <= i < items.len() implies models_of(items)[i] == items[i]@ by {
            if i < items.len() - 1 {
                assert(items.drop_last()[i] == items[i]);
            } else {
                assert(items.last() == items[i]);
            }
        }
    }
}

/// `entry_models_of` is the pointwise view of its argument.
pub proof fn lemma_entry_models_of(entries: Seq<(String, AttrValue)>)
    ensures
        entry_models_of(entries).len() == entries.len(),
        forall|i: int|
            0 <= i < entries.len() ==> entry_models_of(entries)[i] == (
                entries[i].0@,
                entries[i].1@,
            ),
    decreases entries.len(),
{
    if entries.len() > 0 {
        lemma_entry_models_of(entries.drop_last());
        assert(entry_models_of(entries) == entry_models_of(entries.drop_last()).push(
            (entries.last().0@, entries.last().1@),
        ));
        assert forall|i: int|
            0 <= i < entries.len() implies entry_models_of(entries)[i] == (
            entries[i].0@,
            entries[i].1@,
        ) by {
            if i < entries.len() - 1 {
                assert(entries.drop_last()[i] == entries[i]);
            } else {
                assert(entries.last() == entries[i]);
            }
        }
    }
}

/// The keys of a model map, in entry order.
pub open spec fn entry_keys(entries: Seq<(Seq<char>, AttrModel)>) -> Seq<Seq<char>> {
    entries.map_values(|e: (Seq<char>, AttrModel)| e.0)
}

/// No two entries of a model map share a key.
pub open spec fn unique_keys(entries: Seq<(Seq<char>, AttrModel)>) -> bool {
    forall|i: int, j: int|
        0 <= i < j < entries.len() ==> entries[i].0 != entries[j].0
}

/// All members of a model string set are distinct.
pub open spec fn distinct_strings(members: Seq<Seq<char>>) -> bool {
    forall|i: int, j: int| 0 <= i < j < members.len() ==> members[i] != members[j]
}

impl AttrModel {
    /// Well-formedness: throughout the tree, map keys are unique and string
    /// sets hold no duplicate member.  Every encoder produces well-formed
    /// values, and decoding is specified over well-formed input.
    pub open spec fn wf(self) -> bool
        decreases self,
    {
        match self {
            AttrModel::L(items) => wf_items(items),
            AttrModel::M(entries) => unique_keys(entries) && wf_entry_values(entries),
            AttrModel::Ss(members) => distinct_strings(members),
            _ => true,
        }
    }
}

/// Every item of a list model is well-formed.
pub open spec fn wf_items(items: Seq<AttrModel>) -> bool
    decreases items,
{
    if items.len() == 0 {
        true
    } else {
        wf_items(items.drop_last()) && items.last().wf()
    }
}

/// Every entry value of a map model is well-formed.
pub open spec fn wf_entry_values(entries: Seq<(Seq<char>, AttrModel)>) -> bool
    decreases entries,
{
    if entries.len() == 0 {
        true
    } else {
        wf_entry_values(entries.drop_last()) && entries.last().1.wf()
    }
}

/// `wf_items` holds exactly when every item is well-formed.
pub proof fn lemma_wf_items(items: Seq<AttrModel>)
    ensures
        wf_items(items) <==> (forall|i: int|
            0 <= i < items.len() ==> (#[trigger] items[i]).wf()),
    decreases items.len(),
{
    assert(wf_items(items) == (if items.len() == 0 {
        true
    } else {
        wf_items(items.drop_last()) && items.last().wf()
    }));
    if items.len() > 0 {
        lemma_wf_items(items.drop_last());
        assert(forall|i: int|
            0 <= i < items.len() - 1 ==> #[trigger] items.drop_last()[i] == items[i]);
        if wf_items(items) {
            assert forall|i: int|
                0 <= i < items.len() implies (#[trigger] items[i]).wf() by {
                if i < items.len() - 1 {
                    assert(items.drop_last()[i].wf());
                } else {
                    assert(items[i] == items.last());
                }
            }
        }
    }
}

/// `wf_entry_values` holds exactly when every entry's value is well-formed.
pub proof fn lemma_wf_entry_values(entries: Seq<(Seq<char>, AttrModel)>)
    ensures
        wf_entry_values(entries) <==> (forall|i: int|
            0 <= i < entries.len() ==> (#[trigger] entries[i].1).wf()),
    decreases entries.len(),
{
    assert(wf_entry_values(entries) == (if entries.len() == 0 {
        true
    } else {
        wf_entry_values(entries.drop_last()) && entries.last().1.wf()
    }));
    if entries.len() > 0 {
        lemma_wf_entry_values(entries.drop_last());
        assert(forall|i: int|
            0 <= i < entries.len() - 1 ==> #[trigger] entries.drop_last()[i] == entries[i]);
        if wf_entry_values(entries) {
            assert forall|i: int|
                0 <= i < entries.len() implies (#[trigger] entries[i].1).wf() by {
                if i < entries.len() - 1 {
                    assert(entries.drop_last()[i].1.wf());
                } else {
                    assert(entries[i] == entries.last());
                }
            }
        }
    }
}

/// Unpacks well-formedness of a list model: every item is well-formed.
pub proof fn lemma_wf_list(items: Seq<AttrModel>)
    requires
        AttrModel::L(items).wf(),
    ensures
        forall|i: int| 0 <= i < items.len() ==> (#[trigger] items[i]).wf(),
{
    lemma_wf_items(items);
}

} // verus!
