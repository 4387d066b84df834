//! Item references and recipe slots.
use vstd::prelude::*;

verus! {

/// Mathematical view of a [`RecipeItem`].
pub enum ItemRef {
    Item(Seq<char>),
    Tag(Seq<char>),
}

/// Mathematical view of a [`RecipeItems`] slot.
pub enum ItemRefSet {
    Single(ItemRef),
    Multiple(Seq<ItemRef>),
}

impl ItemRefSet {
    /// The item references a slot offers, in declared order.
    pub open spec fn alternatives(self) -> Seq<ItemRef> {
        match self {
            ItemRefSet::Single(i) => seq![i],
            ItemRefSet::Multiple(v) => v,
        }
    }
}

/// A reference to one concrete item, or to a tag naming a group of items.
#[derive(Debug, Clone, Hash)]
pub enum RecipeItem {
    Item(String),
    Tag(String),
}

impl View for RecipeItem {
    type V = ItemRef;

    open spec fn view(&self) -> ItemRef {
        match self {
            RecipeItem::Item(id) => ItemRef::Item(id@),
            RecipeItem::Tag(id) => ItemRef::Tag(id@),
        }
    }
}

impl RecipeItem {
    /// Structural equality: same variant and same id.
    pub fn same(&self, other: &RecipeItem) -> (r: bool)
        ensures
            r == (self@ == other@),
    {
        match (self, other) {
            (RecipeItem::Item(a), RecipeItem::Item(b)) => a.eq(b),
            (RecipeItem::Tag(a), RecipeItem::Tag(b)) => a.eq(b),
            _ => false,
        }
    }

    /// A copy with the same view.
    pub fn duplicate(&self) -> (r: RecipeItem)
        ensures
            r@ == self@,
    {
        match self {
            RecipeItem::Item(id) => RecipeItem::Item(id.clone()),
            RecipeItem::Tag(id) => RecipeItem::Tag(id.clone()),
        }
    }

    /// The item id, with a leading `#` for a tag.
    pub fn to_text(&self) -> (r: String)
        ensures
            r@ == match self@ {
                ItemRef::Item(id) => id,
                ItemRef::Tag(id) => seq!['#'] + id,
            },
    {
        match self {
            RecipeItem::Item(id) => id.clone(),
            RecipeItem::Tag(id) => {
                let mut s = String::from_str("#");
                proof {
                    reveal_strlit("#");
                }
                s.append(id.as_str());
                s
            },
        }
    }
}

impl PartialEq for RecipeItem {
    fn eq(&self, other: &RecipeItem) -> (r: bool) {
        self.same(other)
    }
}

impl vstd::std_specs::cmp::PartialEqSpecImpl for RecipeItem {
    open spec fn obeys_eq_spec() -> bool {
        true
    }

    open spec fn eq_spec(&self, other: &RecipeItem) -> bool {
        self@ == other@
    }
}

impl Eq for RecipeItem {
}

/// One recipe slot: a single requirement, or interchangeable alternatives.
#[derive(Debug, Clone, Hash)]
pub enum RecipeItems {
    Single(RecipeItem),
    Multiple(Vec<RecipeItem>),
}

impl View for RecipeItems {
    type V = ItemRefSet;

    open spec fn view(&self) -> ItemRefSet {
        match self {
            RecipeItems::Single(i) => ItemRefSet::Single(i@),
            RecipeItems::Multiple(v) => ItemRefSet::Multiple(v@.map_values(|x: RecipeItem| x@)),
        }
    }
}

impl RecipeItems {
    /// A slot holding exactly one requirement.
    pub fn single(item: RecipeItem) -> (r: RecipeItems)
        ensures
            r@ == ItemRefSet::Single(item@),
    {
        RecipeItems::Single(item)
    }

    /// The references of this slot, in declared order.
    pub fn iter(&self) -> (r: Vec<&RecipeItem>)
        ensures
            r@.map_values(|x: &RecipeItem| x@) == self@.alternatives(),
    {
        match self {
            RecipeItems::Single(item) => {
                let r = vec![item];
                assert(r@.map_values(|x: &RecipeItem| x@) =~= self@.alternatives());
                r
            },
            RecipeItems::Multiple(items) => {
                let mut r: Vec<&RecipeItem> = Vec::new();
                let mut i: usize = 0;
                while i < items.len()
                    invariant
                        i <= items.len(),
                        r@.len() == i,
                        forall|j: int| 0 <= j < i ==> r@[j]@ == items@[j]@,
                    decreases items.len() - i,
                {
                    r.push(&items[i]);
                    i += 1;
                }
                assert(r@.map_values(|x: &RecipeItem| x@) =~= self@.alternatives());
                r
            },
        }
    }

    /// Structural equality: same variant and the same references in the same
    /// order. Alternatives listed in another order count as a different slot,
    /// so they become a different graph node.
    pub fn same(&self, other: &RecipeItems) -> (r: bool)
        ensures
            r == (self@ == other@),
    {
        match self {
            RecipeItems::Single(a) => match other {
                RecipeItems::Single(b) => a.same(b),
                RecipeItems::Multiple(_) => false,
            },
            RecipeItems::Multiple(a) => match other {
                RecipeItems::Single(_) => false,
                RecipeItems::Multiple(b) => {
                    let ghost va = a@.map_values(|x: RecipeItem| x@);
                    let ghost vb = b@.map_values(|x: RecipeItem| x@);
                    if a.len() != b.len() {
                        assert(va.len() != vb.len());
                        return false;
                    }
                    let mut i: usize = 0;
                    while i < a.len()
                        invariant
                            i <= a.len(),
                            a.len() == b.len(),
                            va == a@.map_values(|x: RecipeItem| x@),
                            vb == b@.map_values(|x: RecipeItem| x@),
                            self@ == ItemRefSet::Multiple(va),
                            other@ == ItemRefSet::Multiple(vb),
                            forall|j: int| 0 <= j < i ==> a@[j]@ == b@[j]@,
                        decreases a.len() - i,
                    {
                        if !a[i].same(&b[i]) {
                            assert(va[i as int] != vb[i as int]);
                            return false;
                        }
                        i += 1;
                    }
                    assert(va =~= vb);
                    true
                },
            },
        }
    }

    /// A copy with the same view.
    pub fn duplicate(&self) -> (r: RecipeItems)
        ensures
            r@ == self@,
    {
        match self {
            RecipeItems::Single(i) => RecipeItems::Single(i.duplicate()),
            RecipeItems::Multiple(v) => {
                let mut r: Vec<RecipeItem> = Vec::new();
                let mut i: usize = 0;
                while i < v.len()
                    invariant
                        i <= v.len(),
                        r@.len() == i,
                        forall|j: int| 0 <= j < i ==> r@[j]@ == v@[j]@,
                    decreases v.len() - i,
                {
                    r.push(v[i].duplicate());
                    i += 1;
                }
                assert(r@.map_values(|x: RecipeItem| x@) =~= v@.map_values(|x: RecipeItem| x@));
                RecipeItems::Multiple(r)
            },
        }
    }
}

impl PartialEq for RecipeItems {
    fn eq(&self, other: &RecipeItems) -> (r: bool) {
        self.same(other)
    }
}

impl vstd::std_specs::cmp::PartialEqSpecImpl for RecipeItems {
    open spec fn obeys_eq_spec() -> bool {
        true
    }

    open spec fn eq_spec(&self, other: &RecipeItems) -> bool {
        self@ == other@
    }
}

impl Eq for RecipeItems {
}

} // verus!
