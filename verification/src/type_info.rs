//! Descriptors of component types.
use crate::columns::layouts_wf;
use crate::layout::Layout;
use std::cmp::Ordering;
use vstd::prelude::*;

verus! {

/// Metadata required to store a component: the identity of its type, its
/// layout, and a destructor that works on the bytes of one value.
///
/// Descriptors are ordered by descending alignment, with ties broken by
/// ascending identity. The destructor takes no part in comparisons.
#[derive(Clone, Copy, Debug)]
pub struct TypeInfo<D> {
    id: u64,
    layout: Layout,
    drop: D,
}

impl<D> TypeInfo<D> {
    /// The identity of the described type.
    pub closed spec fn spec_id(&self) -> u64 {
        self.id
    }

    /// The layout of the described type.
    pub closed spec fn spec_layout(&self) -> Layout {
        self.layout
    }

    /// The destructor of the described type.
    pub closed spec fn destructor(&self) -> D {
        self.drop
    }

    /// The order of descriptors: `self` comes strictly before `other`.
    pub open spec fn precedes(&self, other: &Self) -> bool {
        self.layout().align() > other.layout().align() || (
        self.layout().align() == other.layout().align() && self.id()
            < other.id())
    }

    /// Whether the two descriptors have the same place in the order.
    pub open spec fn same_rank(&self, other: &Self) -> bool {
        self.layout().align() == other.layout().align() && self.id()
            == other.id()
    }

    /// The identity of the described type.
    #[verifier::when_used_as_spec(spec_id)]
    pub fn id(&self) -> (r: u64)
        ensures
            r == self.spec_id(),
    {
        self.id
    }

    /// The layout of the described type.
    #[verifier::when_used_as_spec(spec_layout)]
    pub fn layout(&self) -> (r: Layout)
        ensures
            r == self.spec_layout(),
    {
        self.layout
    }

    /// Compares by alignment, descending, then by identity, ascending.
    pub fn cmp(&self, other: &Self) -> (r: Ordering)
        ensures
            r == Ordering::Less <==> self.precedes(other),
            r == Ordering::Equal <==> self.same_rank(other),
            r == Ordering::Greater <==> other.precedes(self),
    {
        if self.layout.align() > other.layout.align() {
            Ordering::Less
        } else if self.layout.align() < other.layout.align() {
            Ordering::Greater
        } else if self.id < other.id {
            Ordering::Less
        } else if self.id > other.id {
            Ordering::Greater
        } else {
            Ordering::Equal
        }
    }
}

impl<D: Fn(&[u8])> TypeInfo<D> {
    /// Whether the destructor may be called on every value of the type.
    pub open spec fn accepts_values(layout: Layout, drop: D) -> bool {
        forall|data: &[u8]| data@.len() == layout.size() ==> call_requires(drop, (data,))
    }

    /// That the destructor has run on a value with the given bytes.
    pub open spec fn destructed(&self, bytes: Seq<u8>) -> bool {
        exists|data: &[u8]| data@ == bytes && call_ensures(self.destructor(), (data,), ())
    }

    /// Well-formedness: the layout is well formed and the destructor may be
    /// called on any value of that size.
    pub open spec fn wf(&self) -> bool {
        &&& self.layout().wf()
        &&& Self::accepts_values(self.layout(), self.destructor())
    }

    /// A descriptor made of its three parts.
    pub fn new(id: u64, layout: Layout, drop: D) -> (r: Self)
        requires
            layout.wf(),
            Self::accepts_values(layout, drop),
        ensures
            r.wf(),
            r.id() == id,
            r.layout() == layout,
            r.destructor() == drop,
    {
        TypeInfo { id, layout, drop }
    }

    /// Metadata for `T`, under the given identity and with the given
    /// destructor.
    pub fn of<T>(id: u64, drop: D) -> (r: Self)
        requires
            forall|data: &[u8]|
                data@.len() == vstd::layout::size_of::<T>() ==> call_requires(drop, (data,)),
        ensures
            r.wf(),
            r.id() == id,
            r.layout().size() == vstd::layout::size_of::<T>(),
            r.layout().align() == vstd::layout::align_of::<T>(),
            r.destructor() == drop,
    {
        TypeInfo { id, layout: Layout::of::<T>(), drop }
    }

    /// Destructs one value of the type, given its bytes.
    pub fn drop(&self, data: &[u8])
        requires
            self.wf(),
            data@.len() == self.layout().size(),
        ensures
            self.destructed(data@),
    {
        (self.drop)(data)
    }
}

impl<D> PartialEq for TypeInfo<D> {
    /// Two descriptors are equal when they describe the same type.
    fn eq(&self, other: &Self) -> (r: bool) {
        self.id == other.id
    }
}

impl<D> Eq for TypeInfo<D> {}

impl<D> vstd::std_specs::cmp::PartialEqSpecImpl for TypeInfo<D> {
    open spec fn obeys_eq_spec() -> bool {
        true
    }

    open spec fn eq_spec(&self, other: &Self) -> bool {
        self.id() == other.id()
    }
}

impl<D> PartialOrd for TypeInfo<D> {
    fn partial_cmp(&self, other: &Self) -> (r: Option<Ordering>) {
        Some(self.cmp(other))
    }
}

impl<D> vstd::std_specs::cmp::PartialOrdSpecImpl for TypeInfo<D> {
    open spec fn obeys_partial_cmp_spec() -> bool {
        true
    }

    open spec fn partial_cmp_spec(&self, other: &Self) -> Option<Ordering> {
        if self.precedes(other) {
            Some(Ordering::Less)
        } else if other.precedes(self) {
            Some(Ordering::Greater)
        } else {
            Some(Ordering::Equal)
        }
    }
}

/// The layouts of a sequence of descriptors.
pub open spec fn layouts_of<D>(types: Seq<TypeInfo<D>>) -> Seq<Layout> {
    Seq::new(types.len(), |k: int| types[k].layout())
}

/// Whether every descriptor of the sequence comes strictly before all the
/// later ones.
pub open spec fn strictly_sorted<D>(types: Seq<TypeInfo<D>>) -> bool {
    forall|i: int, j: int|
        0 <= i < j < types.len() ==> (#[trigger] types[i]).precedes(#[trigger] &types[j])
}

/// Whether no identity occurs twice in the sequence.
pub open spec fn distinct_ids<D>(types: Seq<TypeInfo<D>>) -> bool {
    forall|i: int, j: int|
        0 <= i < j < types.len() ==> (#[trigger] types[i]).id() != (#[trigger] types[j]).id()
}

/// Whether every descriptor of the sequence is well formed.
pub open spec fn types_wf<D: Fn(&[u8])>(types: Seq<TypeInfo<D>>) -> bool {
    forall|k: int| 0 <= k < types.len() ==> (#[trigger] types[k]).wf()
}

/// Whether the sequence can be the type set of an archetype: well-formed
/// descriptors, strictly sorted, no identity twice.
pub open spec fn is_type_set<D: Fn(&[u8])>(types: Seq<TypeInfo<D>>) -> bool {
    types_wf(types) && strictly_sorted(types) && distinct_ids(types)
}

/// Whether the sequence holds a descriptor with the given identity.
pub open spec fn has_id<D>(types: Seq<TypeInfo<D>>, id: u64) -> bool {
    exists|k: int| 0 <= k < types.len() && (#[trigger] types[k]).id() == id
}

/// The position of a descriptor with the given identity.
pub open spec fn index_of<D>(types: Seq<TypeInfo<D>>, id: u64) -> int {
    choose|k: int| 0 <= k < types.len() && (#[trigger] types[k]).id() == id
}

/// The layouts of well-formed descriptors are well formed.
pub proof fn lemma_layouts_wf<D: Fn(&[u8])>(types: Seq<TypeInfo<D>>)
    requires
        types_wf(types),
    ensures
        layouts_wf(layouts_of(types)),
        layouts_of(types).len() == types.len(),
{
    assert forall|k: int| 0 <= k < layouts_of(types).len() implies (#[trigger] layouts_of(
        types,
    )[k]).wf() by {
        assert(types[k].wf());
    }
}

} // verus!
