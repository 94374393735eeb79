//! Importing a backup of another addon manager.

use vstd::prelude::*;
use crate::service::AddonService;
use crate::table::is_listed;
use crate::text::{listed_numbers, parse_list};

verus! {

/// How far the installation of an addon has come.
#[derive(Clone, Copy, Debug, PartialEq, Eq, Structural)]
pub enum InstallState {
    /// It is still running.
    Updating,
    /// It is done.
    Success,
    /// It failed.
    Error,
    /// Its outcome was taken away.
    Empty,
}

/// An import that is running.
#[derive(Debug, PartialEq, Eq)]
pub struct MinionImport {
    /// The addons whose installation is to be started, in this order.
    pub installs: Vec<i32>,
    /// The addons whose installation is not known to be done, each once.
    pub pending: Vec<i32>,
}

/// What is left of `pending` once the states were asked: all whose installation is not done.
pub open spec fn left_over(pending: Seq<i32>, states: Seq<InstallState>) -> Seq<i32>
    decreases pending.len(),
{
    if pending.len() == 0 {
        Seq::empty()
    } else {
        let rest = left_over(pending.drop_last(), states);
        if states[pending.len() - 1] == InstallState::Success {
            rest
        } else {
            rest.push(pending.last())
        }
    }
}

/// What is left over was pending, and is not done.
pub proof fn lemma_left_over(pending: Seq<i32>, states: Seq<InstallState>)
    requires
        pending.len() == states.len(),
    ensures
        left_over(pending, states).len() <= pending.len(),
        forall|id: i32| #[trigger]
            left_over(pending, states).contains(id) <==> exists|i: int|
                0 <= i < pending.len() && #[trigger] pending[i] == id && states[i]
                    != InstallState::Success,
        pending.no_duplicates() ==> left_over(pending, states).no_duplicates(),
    decreases pending.len(),
{
    let all = left_over(pending, states);
    if pending.len() > 0 {
        let p = pending.drop_last();
        let s = states.drop_last();
        lemma_left_over(p, s);
        lemma_left_over_prefix(p, s, states);
        let rest = left_over(p, states);
        let last = pending.last();
        assert forall|id: i32| #[trigger] all.contains(id) <==> exists|i: int|
            0 <= i < pending.len() && #[trigger] pending[i] == id && states[i]
                != InstallState::Success by {
            if all.contains(id) {
                let m = all.index_of(id);
                if m < rest.len() {
                    assert(rest[m] == id);
                    assert(rest.contains(id));
                    let i = choose|i: int|
                        0 <= i < p.len() && #[trigger] p[i] == id && s[i] != InstallState::Success;
                    assert(pending[i] == id);
                } else {
                    assert(pending[pending.len() - 1] == id);
                }
            }
            if exists|i: int|
                0 <= i < pending.len() && #[trigger] pending[i] == id && states[i]
                    != InstallState::Success {
                let i = choose|i: int|
                    0 <= i < pending.len() && #[trigger] pending[i] == id && states[i]
                        != InstallState::Success;
                if i < p.len() {
                    assert(p[i] == id && s[i] != InstallState::Success);
                    assert(rest.contains(id));
                    let m = rest.index_of(id);
                    assert(all[m] == id);
                } else {
                    assert(all[all.len() - 1] == id);
                }
            }
        }
        if pending.no_duplicates() {
            assert(p.no_duplicates());
            if rest.contains(last) {
                let i = choose|i: int|
                    0 <= i < p.len() && #[trigger] p[i] == last && s[i] != InstallState::Success;
                assert(pending[i] == pending[pending.len() - 1]);
            }
        }
    }
}

proof fn lemma_left_over_prefix(
    pending: Seq<i32>,
    states: Seq<InstallState>,
    more: Seq<InstallState>,
)
    requires
        pending.len() <= states.len() <= more.len(),
        forall|i: int| 0 <= i < pending.len() ==> states[i] == more[i],
    ensures
        left_over(pending, states) == left_over(pending, more),
    decreases pending.len(),
{
    if pending.len() > 0 {
        lemma_left_over_prefix(pending.drop_last(), states, more);
    }
}

impl MinionImport {
    /// No addon is pending twice.
    pub open spec fn wf(&self) -> bool {
        self.pending@.no_duplicates()
    }

    /// Takes note of the states of the pending installations, in their order: those that are
    /// done are no longer pending.
    pub fn on_poll(&mut self, states: &Vec<InstallState>)
        requires
            old(self).wf(),
            states@.len() == old(self).pending@.len(),
        ensures
            final(self).wf(),
            final(self).pending@ == left_over(old(self).pending@, states@),
            final(self).installs == old(self).installs,
    {
        let ghost before = self.pending@;
        let mut rest: Vec<i32> = Vec::new();
        let mut i: usize = 0;
        assert(before.take(0) =~= Seq::empty());
        while i < self.pending.len()
            invariant
                i <= self.pending.len() == states.len(),
                self.pending@ == before,
                rest@ == left_over(before.take(i as int), states@),
            decreases self.pending.len() - i,
        {
            assert(before.take(i + 1).drop_last() =~= before.take(i as int));
            if states[i] != InstallState::Success {
                rest.push(self.pending[i]);
            }
            i += 1;
        }
        proof {
            assert(before.take(i as int) =~= before);
            lemma_left_over(before, states@);
        }
        self.pending = rest;
    }

    /// Whether the import is over.
    pub fn is_done(&self) -> (b: bool)
        ensures
            b == (self.pending@.len() == 0),
    {
        self.pending.len() == 0
    }
}

impl AddonService {
    /// Starts the import of a backup: a single line of comma-separated addon identifiers. Every
    /// identifier on the line is installed, and each stays pending until that is done.
    pub fn import_minion_file(&self, line: &str) -> (m: MinionImport)
        requires
            listed_numbers(line@) is Some,
        ensures
            m.wf(),
            Some(m.installs@) == listed_numbers(line@),
            forall|id: i32| m.pending@.contains(id) <==> m.installs@.contains(id),
    {
        let installs = parse_list(line).unwrap();
        let mut pending: Vec<i32> = Vec::new();
        let mut i: usize = 0;
        while i < installs.len()
            invariant
                i <= installs.len(),
                pending@.no_duplicates(),
                forall|id: i32|
                    pending@.contains(id) <==> installs@.take(i as int).contains(id),
            decreases installs.len() - i,
        {
            let k = installs[i];
            let ghost before = pending@;
            if !is_listed(&pending, k) {
                pending.push(k);
            }
            proof {
                let shorter = installs@.take(i as int);
                let longer = installs@.take(i + 1);
                assert(longer =~= shorter.push(k));
                assert forall|id: i32| pending@.contains(id) <==> longer.contains(id) by {
                    lemma_push_contains(shorter, k, id);
                    lemma_push_contains(before, k, id);
                }
            }
            i += 1;
        }
        assert(installs@.take(i as int) =~= installs@);
        MinionImport { installs, pending }
    }
}

proof fn lemma_push_contains(s: Seq<i32>, k: i32, id: i32)
    ensures
        s.push(k).contains(id) == (s.contains(id) || id == k),
{
    if s.contains(id) {
        let i = s.index_of(id);
        assert(s.push(k)[i] == id);
    }
    assert(s.push(k)[s.len() as int] == k);
    if s.push(k).contains(id) {
        let i = s.push(k).index_of(id);
        if i < s.len() {
            assert(s[i] == id);
        }
    }
}

} // verus!
