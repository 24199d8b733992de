//! The statistics loads that the user cancelled, by request id.
use vstd::prelude::*;

use crate::text::{str_eq, string_views};

verus! {

/// The ids of the cancelled requests, each listed once.
pub struct CancelRegistry {
    ids: Vec<String>,
}

impl CancelRegistry {
    /// The set of cancelled request ids.
    pub closed spec fn cancelled(&self) -> Set<Seq<char>> {
        string_views(self.ids@).to_set()
    }

    /// No id is listed twice.
    pub closed spec fn wf(&self) -> bool {
        string_views(self.ids@).no_duplicates()
    }

    /// A registry with nothing cancelled.
    pub fn new() -> (r: CancelRegistry)
        ensures
            r.wf(),
            r.cancelled() == Set::<Seq<char>>::empty(),
    {
        let r = CancelRegistry { ids: Vec::new() };
        assert(string_views(r.ids@).to_set() =~= Set::<Seq<char>>::empty());
        r
    }

    fn position(&self, request_id: &str) -> (r: Option<usize>)
        ensures
            match r {
                Some(i) => i < self.ids@.len() && self.ids@[i as int]@ == request_id@,
                None => !self.cancelled().contains(request_id@),
            },
    {
        let mut i: usize = 0;
        while i < self.ids.len()
            invariant
                i <= self.ids@.len(),
                forall|k: int| 0 <= k < i ==> self.ids@[k]@ != request_id@,
            decreases self.ids@.len() - i,
        {
            if str_eq(self.ids[i].as_str(), request_id) {
                return Some(i);
            }
            i = i + 1;
        }
        proof {
            if string_views(self.ids@).to_set().contains(request_id@) {
                let k = choose|k: int| 0 <= k < string_views(self.ids@).len() && string_views(self.ids@)[k] == request_id@;
                assert(self.ids@[k]@ == request_id@);
            }
        }
        None
    }
}

/// Whether the request was cancelled.
pub fn is_cancelled_request(registry: &CancelRegistry, request_id: &str) -> (r: bool)
    ensures
        r == registry.cancelled().contains(request_id@),
{
    match registry.position(request_id) {
        Some(i) => {
            assert(string_views(registry.ids@)[i as int] == request_id@);
            true
        },
        None => false,
    }
}

/// Records that the request was cancelled.
pub fn cancel_request(registry: &mut CancelRegistry, request_id: String)
    requires
        old(registry).wf(),
    ensures
        final(registry).wf(),
        final(registry).cancelled() == old(registry).cancelled().insert(request_id@),
{
    match registry.position(request_id.as_str()) {
        Some(i) => {
            proof {
                assert(string_views(registry.ids@)[i as int] == request_id@);
                assert(registry.cancelled().insert(request_id@) =~= registry.cancelled());
            }
        },
        None => {
            let ghost before = string_views(registry.ids@);
            registry.ids.push(request_id);
            proof {
                assert(string_views(registry.ids@) =~= before.push(request_id@));
                assert(string_views(registry.ids@).to_set() =~= before.to_set().insert(request_id@)) by {
                    assert forall|x: Seq<char>|
                        string_views(registry.ids@).to_set().contains(x) implies before.to_set().insert(
                        request_id@,
                    ).contains(x) by {
                        let k = choose|k: int|
                            0 <= k < string_views(registry.ids@).len() && string_views(registry.ids@)[k] == x;
                        if k < before.len() {
                            assert(before[k] == x);
                        }
                    }
                    assert forall|x: Seq<char>|
                        before.to_set().insert(request_id@).contains(x) implies string_views(
                        registry.ids@,
                    ).to_set().contains(x) by {
                        if x == request_id@ {
                            assert(string_views(registry.ids@)[before.len() as int] == x);
                        } else {
                            let k = choose|k: int| 0 <= k < before.len() && before[k] == x;
                            assert(string_views(registry.ids@)[k] == x);
                        }
                    }
                }
            }
        },
    }
}

/// Forgets that the request was cancelled.
pub fn clear_cancelled_request(registry: &mut CancelRegistry, request_id: &str)
    requires
        old(registry).wf(),
    ensures
        final(registry).wf(),
        final(registry).cancelled() == old(registry).cancelled().remove(request_id@),
{
    match registry.position(request_id) {
        Some(i) => {
            let ghost before = string_views(registry.ids@);
            registry.ids.remove(i);
            proof {
                assert(string_views(registry.ids@) =~= before.remove(i as int));
                assert(before[i as int] == request_id@);
                assert(string_views(registry.ids@).no_duplicates()) by {
                    assert forall|a: int, b: int|
                        0 <= a < b < string_views(registry.ids@).len() implies string_views(registry.ids@)[a]
                        != string_views(registry.ids@)[b] by {
                        let a2 = if a < i { a } else { a + 1 };
                        let b2 = if b < i { b } else { b + 1 };
                        assert(string_views(registry.ids@)[a] == before[a2]);
                        assert(string_views(registry.ids@)[b] == before[b2]);
                    }
                }
                assert(string_views(registry.ids@).to_set() =~= before.to_set().remove(request_id@)) by {
                    assert forall|x: Seq<char>|
                        string_views(registry.ids@).to_set().contains(x) implies before.to_set().remove(
                        request_id@,
                    ).contains(x) by {
                        let k = choose|k: int|
                            0 <= k < string_views(registry.ids@).len() && string_views(registry.ids@)[k] == x;
                        let k2 = if k < i { k } else { k + 1 };
                        assert(before[k2] == x);
                        assert(k2 != i);
                    }
                    assert forall|x: Seq<char>|
                        before.to_set().remove(request_id@).contains(x) implies string_views(
                        registry.ids@,
                    ).to_set().contains(x) by {
                        let k = choose|k: int| 0 <= k < before.len() && before[k] == x;
                        assert(k != i);
                        let k2 = if k < i { k } else { k - 1 };
                        assert(string_views(registry.ids@)[k2] == x);
                    }
                }
            }
        },
        None => {
            proof {
                assert(registry.cancelled().remove(request_id@) =~= registry.cancelled());
            }
        },
    }
}

} // verus!
