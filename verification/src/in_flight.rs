//! The identifiers of the file requests that are being served.
use dashmap::DashSet;
use vstd::prelude::*;

verus! {

/// The set type of the `dashmap` crate.
#[verifier::external_type_specification]
#[verifier::external_body]
#[verifier::reject_recursive_types(K)]
#[verifier::reject_recursive_types(S)]
pub struct ExDashSet<K, S>(dashmap::DashSet<K, S>);

/// What a `DashSet` that nobody else can reach at the moment holds.
pub uninterp spec fn held_ids(set: DashSet<u64>) -> Set<u64>;

/// `DashSet::new` gives a set that holds nothing.
#[verifier::external_body]
fn new_set() -> (result: DashSet<u64>)
    ensures
        held_ids(result) == Set::<u64>::empty(),
{
    DashSet::new()
}

/// `DashSet::contains` tells whether the set holds the key. The set is borrowed
/// exclusively, so no other thread changes it meanwhile.
#[verifier::external_body]
fn set_contains(set: &mut DashSet<u64>, id: u64) -> (result: bool)
    ensures
        result == held_ids(*old(set)).contains(id),
        held_ids(*final(set)) == held_ids(*old(set)),
{
    set.contains(&id)
}

/// `DashSet::insert` adds the key and returns whether the set lacked it. The set
/// is borrowed exclusively, so no other thread changes it meanwhile.
#[verifier::external_body]
fn set_insert(set: &mut DashSet<u64>, id: u64) -> (result: bool)
    ensures
        result == !held_ids(*old(set)).contains(id),
        held_ids(*final(set)) == held_ids(*old(set)).insert(id),
{
    set.insert(id)
}

/// `DashSet::remove` takes the key out and returns it if the set held it. The set
/// is borrowed exclusively, so no other thread changes it meanwhile.
#[verifier::external_body]
fn set_remove(set: &mut DashSet<u64>, id: u64) -> (result: Option<u64>)
    ensures
        result == if held_ids(*old(set)).contains(id) {
            Some(id)
        } else {
            None::<u64>
        },
        held_ids(*final(set)) == held_ids(*old(set)).remove(id),
{
    set.remove(&id)
}

/// The identifiers of the file requests that are being served.
pub struct InFlight {
    ids: DashSet<u64>,
}

impl View for InFlight {
    type V = Set<u64>;

    closed spec fn view(&self) -> Set<u64> {
        held_ids(self.ids)
    }
}

impl InFlight {
    /// No request is being served.
    pub fn new() -> (result: InFlight)
        ensures
            result@ == Set::<u64>::empty(),
    {
        InFlight { ids: new_set() }
    }

    /// Takes `id` in, unless a request with it is being served already.
    pub fn begin(&mut self, id: u64) -> (result: bool)
        ensures
            result == !old(self)@.contains(id),
            final(self)@ == old(self)@.insert(id),
    {
        if set_contains(&mut self.ids, id) {
            assert(self@.insert(id) =~= self@);
            return false;
        }
        set_insert(&mut self.ids, id);
        true
    }

    /// Lets `id` go.
    pub fn finish(&mut self, id: u64)
        ensures
            final(self)@ == old(self)@.remove(id),
    {
        set_remove(&mut self.ids, id);
    }
}

/// A request that was taken in and let go leaves no trace.
pub proof fn law_finish_undoes_begin(ids: Set<u64>, id: u64)
    requires
        !ids.contains(id),
    ensures
        ids.insert(id).remove(id) == ids,
{
    assert(ids.insert(id).remove(id) =~= ids);
}

} // verus!
