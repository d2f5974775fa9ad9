//! The processor cores of the machine.
use vstd::prelude::*;

verus! {

/// The numbers grow from each to the next.
pub open spec fn ascending(ids: Seq<usize>) -> bool {
    forall|i: int, j: int| 0 <= i < j < ids.len() ==> ids[i] < ids[j]
}

/// `core_affinity::get_core_ids`: the cores that may be used, by number. On some systems these
/// are the cores on which the calling thread may run, on others those of the process or of the
/// machine. On every system the crate walks through the cores in ascending order. Which and how
/// many there are, and whether they can be found out, depends on the machine.
#[verifier::external_body]
pub(crate) fn get_core_ids() -> (ids: Option<Vec<usize>>)
    ensures
        ids matches Some(list) ==> ascending(list@),
{
    core_affinity::get_core_ids().map(|ids| ids.iter().map(|core| core.id).collect())
}

/// What a list of cores holds, if there is one.
pub open spec fn listed(ids: Option<Vec<usize>>) -> Option<Seq<usize>> {
    match ids {
        Some(list) => Some(list@),
        None => None,
    }
}

/// An enumeration of the cores of the machine can give `found`.
pub closed spec fn enumerated(found: Option<Seq<usize>>) -> bool {
    exists|ids: Option<Vec<usize>>| #[trigger]
        call_ensures(get_core_ids, (), ids) && listed(ids) == found
}

/// What [`enumerated`] says is what the enumeration itself can return, and nothing else.
pub(crate) proof fn law_enumerated(found: Option<Seq<usize>>)
    ensures
        enumerated(found) <==> exists|ids: Option<Vec<usize>>| #[trigger]
            call_ensures(get_core_ids, (), ids) && listed(ids) == found,
{
}

/// Enumerates the cores of the machine.
pub(crate) fn enumerate_cores() -> (ids: Option<Vec<usize>>)
    ensures
        enumerated(listed(ids)),
        ids matches Some(list) ==> ascending(list@),
{
    let enumerate = get_core_ids;
    let ids: Option<Vec<usize>> = enumerate();
    assert(call_ensures(get_core_ids, (), ids));
    ids
}

/// The list of cores holds what an enumeration of the machine's cores gave, in ascending
/// order: if the enumeration gave cores, they are all there, and there are no others.
pub proof fn law_the_list_is_an_enumeration(cores: Cores)
    requires
        call_ensures(Cores::list, (), cores),
    ensures
        enumerated(cores.found()),
        cores.found() matches Some(ids) ==> forall|i: int, j: int|
            0 <= i < j < ids.len() ==> ids[i] < ids[j],
{
}

/// The cores of the machine as they were found out at some time.
pub struct Cores {
    ids: Option<Vec<usize>>,
}

impl Cores {
    /// The cores, by number, if they could be found out.
    pub closed spec fn found(self) -> Option<Seq<usize>> {
        match self.ids {
            Some(ids) => Some(ids@),
            None => None,
        }
    }

    /// Lists the cores that may be used. On some systems a thread that has been pinned sees only
    /// the cores that it may still run on, so a program lists the cores once, before it
    /// pins a thread, and makes all its pools with that list.
    pub fn list() -> (cores: Cores)
        ensures
            enumerated(cores.found()),
            cores.found() matches Some(ids) ==> ascending(ids),
    {
        Cores::from_ids(enumerate_cores())
    }

    /// The given cores, or that there is nothing to be found out.
    pub fn from_ids(ids: Option<Vec<usize>>) -> (cores: Cores)
        ensures
            cores.found() == (match ids {
                Some(list) => Some(list@),
                None => None,
            }),
    {
        Cores { ids }
    }

    /// The cores, by number, if they could be found out.
    pub fn ids(&self) -> (ids: Option<&[usize]>)
        ensures
            self.found() == (match ids {
                Some(list) => Some(list@),
                None => None,
            }),
    {
        match &self.ids {
            Some(list) => Some(list.as_slice()),
            None => None,
        }
    }
}

} // verus!
