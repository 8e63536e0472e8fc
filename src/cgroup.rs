//! The exclusion group: a net_cls control group whose members' packets carry
//! the exclusion tag. The kernel keeps the group; this module decides what to
//! write to it and reads what it reports.
use vstd::prelude::*;
use crate::classifier::{classid_spec, classid_text};
use crate::split::Error;
use crate::text::{lines_of, parse_pid, pid_value, split_lines, views};

verus! {

/// Every line of a membership listing names a process.
pub open spec fn all_pids(lines: Seq<Seq<u8>>) -> bool {
    forall|i: int| 0 <= i < lines.len() ==> pid_value(#[trigger] lines[i]) is Some
}

/// Reads the group's `cgroup.procs` contents: one process identifier per line,
/// in the order the kernel reports them. Any line that is not an `i32` makes
/// the listing fail.
pub fn list_pids(procs: &[u8]) -> (r: Result<Vec<i32>, Error>)
    ensures
        r matches Ok(v) ==> all_pids(lines_of(procs@)) && v@.len() == lines_of(procs@).len()
            && forall|i: int|
            0 <= i < v@.len() ==> pid_value(lines_of(procs@)[i]) == Some(#[trigger] v@[i] as int),
        r matches Err(e) ==> !all_pids(lines_of(procs@)) && e == Error::ListCGroupPids,
{
    let lines = split_lines(procs);
    let ghost ls = views(lines@);
    assert(ls == lines_of(procs@));
    let mut out: Vec<i32> = Vec::new();
    let mut i: usize = 0;
    while i < lines.len()
        invariant
            i <= lines@.len(),
            views(lines@) == ls,
            ls == lines_of(procs@),
            ls.len() == lines@.len(),
            out@.len() == i,
            forall|k: int| 0 <= k < i ==> pid_value(ls[k]) == Some(#[trigger] out@[k] as int),
        decreases lines@.len() - i,
    {
        assert(ls[i as int] == lines@[i as int]@);
        match parse_pid(lines[i].as_slice()) {
            Some(pid) => out.push(pid),
            None => {
                assert(pid_value(ls[i as int]) is None);
                return Err(Error::ListCGroupPids);
            },
        }
        i = i + 1;
    }
    assert forall|k: int| 0 <= k < ls.len() implies pid_value(#[trigger] ls[k]) is Some by {
        assert(pid_value(ls[k]) == Some(out@[k] as int));
    }
    Ok(out)
}

/// What the group looks like on disk: whether its directory exists, and the
/// tag text in its classification attribute, if any.
pub ghost struct GroupState {
    pub exists: bool,
    pub classid: Option<Seq<u8>>,
}

/// Writes made to set the group up.
pub struct GroupSetup {
    /// Create the group's directory first.
    pub create_dir: bool,
    /// Text to write into `net_cls.classid`.
    pub classid: Vec<u8>,
}

/// The group after `setup` was carried out on `state`. Writing the tag into a
/// group whose directory is missing fails.
pub open spec fn apply_setup(state: GroupState, create_dir: bool, classid: Seq<u8>) -> Option<GroupState> {
    if !state.exists && !create_dir {
        None
    } else {
        Some(GroupState { exists: true, classid: Some(classid) })
    }
}

/// Plans the setup of the group: create its directory unless it exists, then
/// write the exclusion tag into its classification attribute.
pub fn create_cgroup(dir_exists: bool) -> (r: GroupSetup)
    ensures
        r.create_dir == !dir_exists,
        r.classid@ == classid_spec(),
{
    GroupSetup { create_dir: !dir_exists, classid: classid_text() }
}

/// Setting the group up twice is the same as once: the second time creates no
/// directory, succeeds, and leaves directory and tag as the first left them.
pub proof fn lemma_setup_idempotent(state: GroupState)
    ensures
        apply_setup(state, !state.exists, classid_spec()) matches Some(s1) ==> s1.exists
            && apply_setup(s1, !s1.exists, classid_spec()) == Some(s1),
        apply_setup(state, !state.exists, classid_spec()) is Some,
{
}

/// The members as the kernel reports them, with the change an operation makes
/// applied: adding a process that is already a member changes nothing.
pub open spec fn added(m: Seq<i32>, pid: i32) -> Seq<i32> {
    if m.contains(pid) { m } else { m.push(pid) }
}

/// The members of a group whose kernel listing is `s`: each identifier at its
/// first place, later repeats left out.
pub open spec fn listed(s: Seq<i32>) -> Seq<i32>
    decreases s.len(),
{
    if s.len() == 0 {
        seq![]
    } else {
        added(listed(s.drop_last()), s.last())
    }
}

pub open spec fn other_than(pid: i32) -> spec_fn(i32) -> bool {
    |x: i32| x != pid
}

pub open spec fn removed(m: Seq<i32>, pid: i32) -> Seq<i32> {
    m.filter(other_than(pid))
}

proof fn lemma_push_contains(s: Seq<i32>, x: i32)
    ensures
        forall|p: i32| s.push(x).contains(p) <==> (s.contains(p) || p == x),
{
    assert forall|p: i32| s.push(x).contains(p) <==> (s.contains(p) || p == x) by {
        if s.contains(p) {
            let k = choose|k: int| 0 <= k < s.len() && s[k] == p;
            assert(s.push(x)[k] == p);
        }
        if p == x {
            assert(s.push(x)[s.len() as int] == p);
        }
        if s.push(x).contains(p) {
            let k = choose|k: int| 0 <= k < s.len() + 1 && s.push(x)[k] == p;
            if k < s.len() {
                assert(s[k] == p);
            }
        }
    }
}

/// The member to move next while clearing: the first one listed, if any.
pub open spec fn first_of(m: Seq<i32>) -> Option<i32> {
    if m.len() > 0 { Some(m[0]) } else { None }
}

/// Members left when clearing moves them out in listing order and the moves
/// turn out as `outcomes` says: each success takes the first member out; the
/// first failure ends the clearing with every member from that one on left.
pub open spec fn clear_run(m: Seq<i32>, outcomes: Seq<bool>) -> Seq<i32>
    decreases outcomes.len(),
{
    if outcomes.len() == 0 || m.len() == 0 || !outcomes[0] {
        m
    } else {
        clear_run(m.drop_first(), outcomes.drop_first())
    }
}

/// The exclusion group's members. A process is a member at most once.
pub struct ExclusionGroup {
    members: Vec<i32>,
}

impl View for ExclusionGroup {
    type V = Seq<i32>;

    closed spec fn view(&self) -> Seq<i32> {
        self.members@
    }
}

impl ExclusionGroup {
    pub open spec fn wf(&self) -> bool {
        self@.no_duplicates()
    }

    /// A group with no members.
    pub fn new() -> (r: ExclusionGroup)
        ensures
            r.wf(),
            r@ == Seq::<i32>::empty(),
    {
        ExclusionGroup { members: Vec::new() }
    }

    /// The group as listed by the kernel; repeated identifiers count once.
    pub fn from_listing(pids: &Vec<i32>) -> (r: ExclusionGroup)
        ensures
            r.wf(),
            r@ == listed(pids@),
    {
        let mut g = ExclusionGroup::new();
        let mut i: usize = 0;
        while i < pids.len()
            invariant
                i <= pids@.len(),
                g.wf(),
                g@ == listed(pids@.subrange(0, i as int)),
            decreases pids@.len() - i,
        {
            let ghost before = pids@.subrange(0, i as int);
            assert(pids@.subrange(0, i + 1).drop_last() == before);
            assert(pids@.subrange(0, i + 1).last() == pids@[i as int]);
            g.add_process(pids[i]);
            i = i + 1;
        }
        assert(pids@.subrange(0, i as int) == pids@);
        g
    }

    /// Whether `pid` is a member.
    pub fn contains(&self, pid: i32) -> (r: bool)
        ensures
            r == self@.contains(pid),
    {
        let mut i: usize = 0;
        while i < self.members.len()
            invariant
                i <= self@.len(),
                forall|k: int| 0 <= k < i ==> self@[k] != pid,
            decreases self@.len() - i,
        {
            if self.members[i] == pid {
                return true;
            }
            i = i + 1;
        }
        false
    }

    /// Adds `pid` to the group, after the members already there.
    pub fn add_process(&mut self, pid: i32)
        requires
            old(self).wf(),
        ensures
            final(self).wf(),
            final(self)@ == added(old(self)@, pid),
    {
        if !self.contains(pid) {
            self.members.push(pid);
        }
    }

    /// Takes `pid` out of the group. Returns whether it was a member, that is
    /// whether it is to be moved back to the non-excluded parent group.
    pub fn remove_process(&mut self, pid: i32) -> (r: bool)
        requires
            old(self).wf(),
        ensures
            final(self).wf(),
            final(self)@ == removed(old(self)@, pid),
            r == old(self)@.contains(pid),
    {
        let ghost m = self@;
        let mut kept: Vec<i32> = Vec::new();
        let mut found = false;
        let mut i: usize = 0;
        while i < self.members.len()
            invariant
                i <= m.len(),
                self@ == m,
                m.no_duplicates(),
                kept@ == removed(m.subrange(0, i as int), pid),
                found == m.subrange(0, i as int).contains(pid),
            decreases m.len() - i,
        {
            let x = self.members[i];
            let ghost pre = m.subrange(0, i as int);
            assert(m.subrange(0, i + 1) == pre.push(x));
            reveal_with_fuel(Seq::filter, 1);
            assert(pre.push(x).drop_last() == pre);
            proof {
                lemma_push_contains(pre, x);
            }
            if x == pid {
                found = true;
            } else {
                kept.push(x);
            }
            i = i + 1;
        }
        assert(m.subrange(0, i as int) == m);
        proof {
            lemma_filter_no_duplicates(m, pid);
        }
        self.members = kept;
        found
    }

    /// The members, in the order they were reported or added.
    pub fn list_processes(&self) -> (r: Vec<i32>)
        ensures
            r@ == self@,
    {
        self.members.clone()
    }

    /// Starts clearing the group: the member to move out first, if any.
    pub fn clear_start(&self) -> (r: Option<i32>)
        ensures
            r == first_of(self@),
    {
        if self.members.len() > 0 {
            Some(self.members[0])
        } else {
            None
        }
    }

    /// One step of clearing, after the move of the member last handed out (the
    /// first one listed) succeeded or failed. On success that member leaves the
    /// group and the next one in listing order is handed out; on failure the
    /// clearing stops with the error, the group unchanged and nothing handed out.
    pub fn clear_step(&mut self, last_move_ok: bool) -> (r: Result<Option<i32>, Error>)
        requires
            old(self).wf(),
            old(self)@.len() > 0,
        ensures
            final(self).wf(),
            final(self)@ == clear_run(old(self)@, seq![last_move_ok]),
            !last_move_ok ==> r == Err::<Option<i32>, Error>(Error::RemoveCGroupPid),
            last_move_ok ==> r == Ok::<Option<i32>, Error>(first_of(final(self)@)),
    {
        let ghost m = self@;
        assert(seq![last_move_ok].drop_first() =~= Seq::<bool>::empty());
        if !last_move_ok {
            return Err(Error::RemoveCGroupPid);
        }
        self.members.remove(0);
        assert(self@ =~= m.drop_first());
        assert(seq![last_move_ok][0]);
        assert(clear_run(m, seq![last_move_ok]) == clear_run(m.drop_first(), seq![last_move_ok].drop_first()));
        proof {
            assert forall|a: int, b: int|
                0 <= a < self@.len() && 0 <= b < self@.len() && a != b implies self@[a]
                != self@[b] by {
                assert(self@[a] == m[a + 1]);
                assert(self@[b] == m[b + 1]);
            }
        }
        Ok(self.clear_start())
    }
}

proof fn lemma_filter_no_duplicates(m: Seq<i32>, pid: i32)
    requires
        m.no_duplicates(),
    ensures
        removed(m, pid).no_duplicates(),
    decreases m.len(),
{
    reveal_with_fuel(Seq::filter, 1);
    if m.len() > 0 {
        let init = m.drop_last();
        assert forall|a: int, b: int|
            0 <= a < init.len() && 0 <= b < init.len() && a != b implies init[a] != init[b] by {
            assert(init[a] == m[a]);
            assert(init[b] == m[b]);
        }
        lemma_filter_no_duplicates(init, pid);
        let f = removed(init, pid);
        if m.last() != pid {
            assert(!f.contains(m.last())) by {
                if f.contains(m.last()) {
                    init.lemma_filter_contains_rev(other_than(pid), m.last());
                    let j = choose|j: int| 0 <= j < init.len() && init[j] == m.last();
                    assert(m[j] == m[m.len() - 1]);
                }
            }
            assert forall|a: int, b: int|
                0 <= a < f.push(m.last()).len() && 0 <= b < f.push(m.last()).len() && a != b
                implies f.push(m.last())[a] != f.push(m.last())[b] by {
                if a == f.len() {
                    assert(f.contains(f.push(m.last())[b]) || b == f.len());
                }
                if b == f.len() {
                    assert(f.contains(f.push(m.last())[a]) || a == f.len());
                }
            }
        }
    }
}

/// Adding a process and then listing the group shows the process exactly once.
pub proof fn lemma_add_then_list(m: Seq<i32>, pid: i32)
    requires
        m.no_duplicates(),
    ensures
        added(m, pid).contains(pid),
        forall|i: int, j: int|
            0 <= i < added(m, pid).len() && 0 <= j < added(m, pid).len() && added(m, pid)[i] == pid
                && added(m, pid)[j] == pid ==> i == j,
{
    lemma_push_contains(m, pid);
    if !m.contains(pid) {
        let a = m.push(pid);
        assert forall|i: int, j: int|
            0 <= i < a.len() && 0 <= j < a.len() && a[i] == pid && a[j] == pid implies i == j by {
            if i < m.len() {
                assert(m[i] == pid);
            }
            if j < m.len() {
                assert(m[j] == pid);
            }
        }
    }
}

/// After a process is removed, listing the group does not show it.
pub proof fn lemma_remove_then_list(m: Seq<i32>, pid: i32)
    ensures
        !removed(m, pid).contains(pid),
{
    broadcast use vstd::seq_lib::group_filter_ensures;

    if removed(m, pid).contains(pid) {
        let k = choose|k: int| 0 <= k < removed(m, pid).len() && removed(m, pid)[k] == pid;
        assert(other_than(pid)(removed(m, pid)[k]));
    }
}

/// Clearing empties the group when every move succeeds; when one fails, that
/// member and every member listed after it are still in the group, whatever
/// the later moves would have done.
pub proof fn lemma_clear_fail_fast(m: Seq<i32>, outcomes: Seq<bool>)
    ensures
        outcomes.len() >= m.len() && (forall|i: int| 0 <= i < outcomes.len() ==> #[trigger] outcomes[i])
            ==> clear_run(m, outcomes).len() == 0,
        forall|k: int|
            0 <= k < m.len() && k < outcomes.len() && !outcomes[k] && (forall|i: int|
                0 <= i < k ==> #[trigger] outcomes[i]) ==> clear_run(m, outcomes) == m.subrange(
                k,
                m.len() as int,
            ),
    decreases outcomes.len(),
{
    if outcomes.len() > 0 && m.len() > 0 {
        let (m1, o1) = (m.drop_first(), outcomes.drop_first());
        lemma_clear_fail_fast(m1, o1);
        assert forall|k: int|
            0 <= k < m.len() && k < outcomes.len() && !outcomes[k] && (forall|i: int|
                0 <= i < k ==> #[trigger] outcomes[i]) implies clear_run(m, outcomes)
            == m.subrange(k, m.len() as int) by {
            if k == 0 {
                assert(m.subrange(0, m.len() as int) =~= m);
            } else {
                assert(outcomes[0]);
                assert(!o1[k - 1]);
                assert forall|i: int| 0 <= i < k - 1 implies #[trigger] o1[i] by {
                    assert(outcomes[i + 1]);
                }
                assert(m1.subrange(k - 1, m1.len() as int) =~= m.subrange(k, m.len() as int));
            }
        }
        if outcomes.len() >= m.len() && (forall|i: int| 0 <= i < outcomes.len() ==> #[trigger] outcomes[i]) {
            assert(outcomes[0]);
            assert forall|i: int| 0 <= i < o1.len() implies #[trigger] o1[i] by {
                assert(outcomes[i + 1]);
            }
        }
    }
}

} // verus!
