//! The output coordinator.
//!
//! A [`Swayless`] owns one tag state machine per output and routes every
//! user-facing operation to the machine of the output currently holding
//! focus. The daemon supplies, with each call, what it observed from the
//! window manager — the focused output's listing position and name, the
//! focused container, the containers on a workspace — and carries out the
//! commands handed back.

use vstd::prelude::*;

use crate::names::{get_workspace_name, parse_workspace_name, spec_parse_name, spec_workspace_name};
use crate::swayless_output::{
    borrow_one_step, borrow_step, can_return, is_switch_to, observe_step, return_step,
    returns_all_borrowed, set_at, strip_id, switch_step, toggle_step, SwaylessOutput,
};
use crate::wm::{OutputInfo, SwaylessError, WmCommand};

verus! {

/// The position an adjacent-output move targets: one step forward or
/// backward from position `i` on the ring of `n` outputs, wrapping at
/// both ends.
pub open spec fn adjacent_index(i: int, n: int, go_to_prev: bool) -> int {
    if go_to_prev {
        if i == 0 {
            n - 1
        } else {
            i - 1
        }
    } else {
        if i + 1 == n {
            0
        } else {
            i + 1
        }
    }
}

/// The ring wraps at both ends: stepping forward from the last output
/// reaches the first, stepping backward from the first reaches the last.
pub proof fn lemma_adjacent_wraps(n: int)
    requires
        n >= 1,
    ensures
        adjacent_index(n - 1, n, false) == 0,
        adjacent_index(0, n, true) == n - 1,
{
}

/// Whether `i` is the position of the first output marked focused.
pub open spec fn first_focused(outputs: Seq<OutputInfo>, i: int) -> bool {
    &&& 0 <= i < outputs.len()
    &&& outputs[i].focused
    &&& forall|j: int| 0 <= j < i ==> !(#[trigger] outputs[j]).focused
}

/// Pairwise distinct output names among the machines.
pub open spec fn states_distinct(states: Seq<SwaylessOutput>) -> bool {
    forall|i: int, j: int|
        0 <= i < j < states.len() ==> (#[trigger] states[i]).name@ != (#[trigger] states[j]).name@
}

/// Every machine's own bookkeeping is well formed.
pub open spec fn states_wf(states: Seq<SwaylessOutput>) -> bool {
    forall|i: int| 0 <= i < states.len() ==> (#[trigger] states[i]).wf()
}

/// Every machine sits on the initial tag with nothing borrowed.
pub open spec fn states_initial(states: Seq<SwaylessOutput>, initial: Seq<char>) -> bool {
    forall|k: int|
        0 <= k < states.len() ==> {
            let st = #[trigger] states[k];
            &&& st@.focused == initial
            &&& st@.prev == initial
            &&& st@.borrowed == Map::<Seq<char>, Set<i64>>::empty()
        }
}

/// Every active output from position `i` on already has a machine.
pub open spec fn states_cover_from(
    states: Seq<SwaylessOutput>,
    outputs: Seq<OutputInfo>,
    i: int,
) -> bool {
    forall|a: int|
        i <= a < outputs.len() && (#[trigger] outputs[a]).active ==> exists|k: int|
            0 <= k < states.len() && (#[trigger] states[k]).name@ == outputs[a].name@
}

/// Whether machine `k` stems from an active output at or after position
/// `i`: that output carries the machine's name, and the command pair of
/// the machine focuses it and switches it to the initial tag's concrete
/// workspace.
pub open spec fn paired_at(
    states: Seq<SwaylessOutput>,
    cmds: Seq<WmCommand>,
    outputs: Seq<OutputInfo>,
    initial: Seq<char>,
    i: int,
    k: int,
) -> bool {
    exists|a: int|
        #![trigger outputs[a]]
        i <= a < outputs.len() && outputs[a].active && outputs[a].name@ == states[k].name@
            && cmds[2 * k] is FocusOutput && cmds[2 * k]->output@ == outputs[a].name@
            && is_switch_to(cmds[2 * k + 1], spec_workspace_name(initial, a as nat))
}

/// Whether every machine stems, as `paired_at` says, from an active
/// output at or after position `i`.
pub open spec fn states_paired(
    states: Seq<SwaylessOutput>,
    cmds: Seq<WmCommand>,
    outputs: Seq<OutputInfo>,
    initial: Seq<char>,
    i: int,
) -> bool {
    forall|k: int|
        0 <= k < states.len() ==> #[trigger] paired_at(states, cmds, outputs, initial, i, k)
}

/// Whether the machines stand in reverse listing order: a machine that
/// comes later in the list stems from an output that comes earlier.
pub open spec fn states_reversed(states: Seq<SwaylessOutput>, outputs: Seq<OutputInfo>) -> bool {
    forall|k1: int, k2: int, a1: int, a2: int|
        0 <= k1 < k2 < states.len() && 0 <= a1 < outputs.len() && 0 <= a2 < outputs.len() && (
        #[trigger] outputs[a1]).name@ == (#[trigger] states[k1]).name@ && (
        #[trigger] outputs[a2]).name@ == (#[trigger] states[k2]).name@ ==> a1 > a2
}

/// One step of startup keeps the machines in reverse listing order: the
/// machine just added stems from position `i`, every earlier one from a
/// position beyond it.
proof fn lemma_reversed_step(
    states0: Seq<SwaylessOutput>,
    cmds0: Seq<WmCommand>,
    states1: Seq<SwaylessOutput>,
    outputs: Seq<OutputInfo>,
    initial: Seq<char>,
    i: int,
)
    requires
        forall|a: int, b: int|
            0 <= a < b < outputs.len() ==> (#[trigger] outputs[a]).name@ != (
            #[trigger] outputs[b]).name@,
        0 <= i < outputs.len(),
        states1.len() == states0.len() + 1,
        forall|k: int| 0 <= k < states0.len() ==> #[trigger] states1[k] == states0[k],
        states1[states0.len() as int].name@ == outputs[i].name@,
        states_paired(states0, cmds0, outputs, initial, i + 1),
        states_reversed(states0, outputs),
    ensures
        states_reversed(states1, outputs),
{
    let n0 = states0.len() as int;
    assert forall|k1: int, k2: int, a1: int, a2: int|
        0 <= k1 < k2 < states1.len() && 0 <= a1 < outputs.len() && 0 <= a2 < outputs.len() && (
        #[trigger] outputs[a1]).name@ == (#[trigger] states1[k1]).name@ && (
        #[trigger] outputs[a2]).name@ == (#[trigger] states1[k2]).name@ implies a1 > a2 by {
        assert(states1[k1] == states0[k1]);
        if k2 == n0 {
            assert(outputs[a2].name@ == outputs[i].name@);
            if a2 < i {
                assert(outputs[a2].name@ != outputs[i].name@);
            } else if a2 > i {
                assert(outputs[i].name@ != outputs[a2].name@);
            }
            assert(a2 == i);
            assert(paired_at(states0, cmds0, outputs, initial, i + 1, k1));
            let aa = choose|aa: int|
                #![trigger outputs[aa]]
                i + 1 <= aa < outputs.len() && outputs[aa].active && outputs[aa].name@
                    == states0[k1].name@ && cmds0[2 * k1] is FocusOutput && cmds0[2 * k1]->output@
                    == outputs[aa].name@ && is_switch_to(
                    cmds0[2 * k1 + 1],
                    spec_workspace_name(initial, aa as nat),
                );
            if a1 < aa {
                assert(outputs[a1].name@ != outputs[aa].name@);
            } else if a1 > aa {
                assert(outputs[aa].name@ != outputs[a1].name@);
            }
            assert(a1 == aa);
        } else {
            assert(states1[k2] == states0[k2]);
        }
    }
}

/// One step of startup: adding the machine and command pair for the
/// active output at position `i` preserves every startup invariant.
#[verifier::rlimit(50)]
proof fn lemma_init_step(
    outputs: Seq<OutputInfo>,
    states0: Seq<SwaylessOutput>,
    cmds0: Seq<WmCommand>,
    states1: Seq<SwaylessOutput>,
    cmds1: Seq<WmCommand>,
    initial: Seq<char>,
    i: int,
)
    requires
        forall|a: int, b: int|
            0 <= a < b < outputs.len() ==> (#[trigger] outputs[a]).name@ != (
            #[trigger] outputs[b]).name@,
        0 <= i < outputs.len(),
        outputs[i].active,
        states1.len() == states0.len() + 1,
        forall|k: int| 0 <= k < states0.len() ==> #[trigger] states1[k] == states0[k],
        states1[states0.len() as int].name@ == outputs[i].name@,
        states1[states0.len() as int].wf(),
        states1[states0.len() as int]@.focused == initial,
        states1[states0.len() as int]@.prev == initial,
        states1[states0.len() as int]@.borrowed == Map::<Seq<char>, Set<i64>>::empty(),
        cmds0.len() == 2 * states0.len(),
        cmds1.len() == cmds0.len() + 2,
        forall|j: int| 0 <= j < cmds0.len() ==> #[trigger] cmds1[j] == cmds0[j],
        cmds1[2 * (states0.len() as int)] is FocusOutput,
        cmds1[2 * (states0.len() as int)]->output@ == outputs[i].name@,
        is_switch_to(cmds1[2 * (states0.len() as int) + 1], spec_workspace_name(initial, i as nat)),
        states_distinct(states0),
        states_wf(states0),
        states_initial(states0, initial),
        states_cover_from(states0, outputs, i + 1),
        states_paired(states0, cmds0, outputs, initial, i + 1),
    ensures
        states_distinct(states1),
        states_wf(states1),
        states_initial(states1, initial),
        states_cover_from(states1, outputs, i),
        states_paired(states1, cmds1, outputs, initial, i),
{
    let n0 = states0.len() as int;
    assert forall|k: int| 0 <= k < states1.len() implies #[trigger] paired_at(
        states1,
        cmds1,
        outputs,
        initial,
        i,
        k,
    ) by {
        if k < n0 {
            assert(paired_at(states0, cmds0, outputs, initial, i + 1, k));
            let a = choose|a: int|
                #![trigger outputs[a]]
                i + 1 <= a < outputs.len() && outputs[a].active && outputs[a].name@
                    == states0[k].name@ && cmds0[2 * k] is FocusOutput && cmds0[2 * k]->output@
                    == outputs[a].name@ && is_switch_to(
                    cmds0[2 * k + 1],
                    spec_workspace_name(initial, a as nat),
                );
            assert(states1[k] == states0[k]);
            assert(cmds1[2 * k] == cmds0[2 * k]);
            assert(cmds1[2 * k + 1] == cmds0[2 * k + 1]);
            assert(i <= a < outputs.len() && outputs[a].active && outputs[a].name@
                == states1[k].name@ && cmds1[2 * k] is FocusOutput && cmds1[2 * k]->output@
                == outputs[a].name@ && is_switch_to(
                cmds1[2 * k + 1],
                spec_workspace_name(initial, a as nat),
            ));
        } else {
            assert(i <= i < outputs.len() && outputs[i].active && outputs[i].name@
                == states1[k].name@ && cmds1[2 * k] is FocusOutput && cmds1[2 * k]->output@
                == outputs[i].name@ && is_switch_to(
                cmds1[2 * k + 1],
                spec_workspace_name(initial, i as nat),
            ));
        }
    }
    assert forall|a: int, b: int| 0 <= a < b < states1.len() implies (
    #[trigger] states1[a]).name@ != (#[trigger] states1[b]).name@ by {
        if b == n0 {
            assert(states1[a] == states0[a]);
            assert(paired_at(states0, cmds0, outputs, initial, i + 1, a));
            let aa = choose|aa: int|
                #![trigger outputs[aa]]
                i + 1 <= aa < outputs.len() && outputs[aa].active && outputs[aa].name@
                    == states0[a].name@ && cmds0[2 * a] is FocusOutput && cmds0[2 * a]->output@
                    == outputs[aa].name@ && is_switch_to(
                    cmds0[2 * a + 1],
                    spec_workspace_name(initial, aa as nat),
                );
            assert(outputs[i].name@ != outputs[aa].name@);
        }
    }
    assert forall|a: int|
        i <= a < outputs.len() && (#[trigger] outputs[a]).active implies exists|k: int|
        0 <= k < states1.len() && (#[trigger] states1[k]).name@ == outputs[a].name@ by {
        if a == i {
            assert(0 <= n0 < states1.len() && states1[n0].name@ == outputs[a].name@);
        } else {
            let k = choose|k: int|
                0 <= k < states0.len() && (#[trigger] states0[k]).name@ == outputs[a].name@;
            assert(states1[k] == states0[k]);
            assert(0 <= k < states1.len() && states1[k].name@ == outputs[a].name@);
        }
    }
}

/// Skipping an inactive output only widens the range the machines may
/// stem from.
proof fn lemma_paired_widen(
    states: Seq<SwaylessOutput>,
    cmds: Seq<WmCommand>,
    outputs: Seq<OutputInfo>,
    initial: Seq<char>,
    i: int,
)
    requires
        states_paired(states, cmds, outputs, initial, i + 1),
    ensures
        states_paired(states, cmds, outputs, initial, i),
{
    assert forall|k: int| 0 <= k < states.len() implies #[trigger] paired_at(
        states,
        cmds,
        outputs,
        initial,
        i,
        k,
    ) by {
        assert(paired_at(states, cmds, outputs, initial, i + 1, k));
        let a = choose|a: int|
            #![trigger outputs[a]]
            i + 1 <= a < outputs.len() && outputs[a].active && outputs[a].name@ == states[k].name@
                && cmds[2 * k] is FocusOutput && cmds[2 * k]->output@ == outputs[a].name@
                && is_switch_to(cmds[2 * k + 1], spec_workspace_name(initial, a as nat));
        assert(i <= a < outputs.len() && outputs[a].active && outputs[a].name@ == states[k].name@
            && cmds[2 * k] is FocusOutput && cmds[2 * k]->output@ == outputs[a].name@
            && is_switch_to(cmds[2 * k + 1], spec_workspace_name(initial, a as nat)));
    }
}

/// The coordinator: one tag state machine per output./// The coordinator: one tag state machine per output.
pub struct Swayless {
    /// The per-output machines, one for each active output seen at
    /// startup.
    pub sway_outputs: Vec<SwaylessOutput>,
}

impl Swayless {
    /// Whether a machine exists for the output of this name.
    pub open spec fn has_output(&self, name: Seq<char>) -> bool {
        exists|i: int|
            0 <= i < self.sway_outputs@.len() && (#[trigger] self.sway_outputs@[i]).name@ == name
    }

    /// The position of the machine for the output of this name.
    pub open spec fn output_index_of(&self, name: Seq<char>) -> int {
        choose|i: int|
            0 <= i < self.sway_outputs@.len() && (#[trigger] self.sway_outputs@[i]).name@ == name
    }

    /// Well-formed coordinator state: one machine per output name, each
    /// machine itself well formed.
    pub open spec fn wf(&self) -> bool {
        &&& states_distinct(self.sway_outputs@)
        &&& states_wf(self.sway_outputs@)
    }

    /// With distinct output names, the machine found for a name is the
    /// only one.
    pub proof fn lemma_output_index_unique(&self, i: int)
        requires
            self.wf(),
            0 <= i < self.sway_outputs@.len(),
        ensures
            self.has_output(self.sway_outputs@[i].name@),
            self.output_index_of(self.sway_outputs@[i].name@) == i,
    {
        assert(self.has_output(self.sway_outputs@[i].name@));
        let j = self.output_index_of(self.sway_outputs@[i].name@);
        if j != i {
            if j < i {
                assert(self.sway_outputs@[j].name@ != self.sway_outputs@[i].name@);
            } else {
                assert(self.sway_outputs@[i].name@ != self.sway_outputs@[j].name@);
            }
        }
    }

    /// The position of the machine for the output named `name`, if any.
    fn find_output(&self, name: &str) -> (r: Option<usize>)
        ensures
            match r {
                Some(i) => i < self.sway_outputs@.len() && self.sway_outputs@[i as int].name@
                    == name@,
                None => !self.has_output(name@),
            },
    {
        let owned = name.to_owned();
        let mut i: usize = 0;
        while i < self.sway_outputs.len()
            invariant
                i <= self.sway_outputs@.len(),
                owned@ == name@,
                forall|j: int| 0 <= j < i ==> (#[trigger] self.sway_outputs@[j]).name@ != name@,
            decreases self.sway_outputs@.len() - i,
        {
            if self.sway_outputs[i].name == owned {
                return Some(i);
            }
            i = i + 1;
        }
        None
    }

    /// Builds the coordinator from the window manager's output listing:
    /// one machine per active output, each starting on
    /// `initial_workspace`, walking the listing backwards so that the
    /// manager's own last-focused pointer ends on the first-listed
    /// output. For each machine two commands are handed back: focus its
    /// output, then switch it to the initial tag's concrete workspace.
    pub fn new(initial_workspace: &str, outputs: &Vec<OutputInfo>) -> (r: (Self, Vec<WmCommand>))
        requires
            forall|i: int, j: int|
                0 <= i < j < outputs@.len() ==> (#[trigger] outputs@[i]).name@ != (
                #[trigger] outputs@[j]).name@,
        ensures
            r.0.wf(),
            forall|n: Seq<char>|
                #[trigger] r.0.has_output(n) <==> exists|i: int|
                    0 <= i < outputs@.len() && (#[trigger] outputs@[i]).active && outputs@[i].name@
                        == n,
            states_initial(r.0.sway_outputs@, initial_workspace@),
            r.1@.len() == 2 * r.0.sway_outputs@.len(),
            states_paired(r.0.sway_outputs@, r.1@, outputs@, initial_workspace@, 0),
            states_reversed(r.0.sway_outputs@, outputs@),
    {
        let mut selff = Swayless { sway_outputs: Vec::new() };
        let mut cmds: Vec<WmCommand> = Vec::new();
        let mut i: usize = outputs.len();
        while i > 0
            invariant
                forall|a: int, b: int|
                    0 <= a < b < outputs@.len() ==> (#[trigger] outputs@[a]).name@ != (
                    #[trigger] outputs@[b]).name@,
                i <= outputs@.len(),
                states_distinct(selff.sway_outputs@),
                states_wf(selff.sway_outputs@),
                states_initial(selff.sway_outputs@, initial_workspace@),
                states_cover_from(selff.sway_outputs@, outputs@, i as int),
                cmds@.len() == 2 * selff.sway_outputs@.len(),
                states_paired(selff.sway_outputs@, cmds@, outputs@, initial_workspace@, i as int),
                states_reversed(selff.sway_outputs@, outputs@),
            decreases i,
        {
            i = i - 1;
            if !outputs[i].active {
                proof {
                    lemma_paired_widen(
                        selff.sway_outputs@,
                        cmds@,
                        outputs@,
                        initial_workspace@,
                        i as int,
                    );
                }
            } else {
                let ghost states0 = selff.sway_outputs@;
                let ghost cmds0 = cmds@;
                cmds.push(WmCommand::FocusOutput { output: outputs[i].name.clone() });
                cmds.push(
                    WmCommand::SwitchToWorkspace {
                        workspace: get_workspace_name(initial_workspace, i),
                    },
                );
                let st = SwaylessOutput::new(outputs[i].name.as_str(), initial_workspace);
                selff.sway_outputs.push(st);
                proof {
                    lemma_init_step(
                        outputs@,
                        states0,
                        cmds0,
                        selff.sway_outputs@,
                        cmds@,
                        initial_workspace@,
                        i as int,
                    );
                    lemma_reversed_step(
                        states0,
                        cmds0,
                        selff.sway_outputs@,
                        outputs@,
                        initial_workspace@,
                        i as int,
                    );
                }
            }
        }
        proof {
            assert forall|n: Seq<char>| #[trigger] selff.has_output(n) implies exists|a: int|
                0 <= a < outputs@.len() && (#[trigger] outputs@[a]).active && outputs@[a].name@
                    == n by {
                let k = choose|k: int|
                    0 <= k < selff.sway_outputs@.len() && (#[trigger] selff.sway_outputs@[k]).name@
                        == n;
                assert(paired_at(
                    selff.sway_outputs@,
                    cmds@,
                    outputs@,
                    initial_workspace@,
                    0,
                    k,
                ));
                let a = choose|a: int|
                    #![trigger outputs@[a]]
                    0 <= a < outputs@.len() && outputs@[a].active && outputs@[a].name@
                        == selff.sway_outputs@[k].name@ && cmds@[2 * k] is FocusOutput && cmds@[2
                        * k]->output@ == outputs@[a].name@ && is_switch_to(
                        cmds@[2 * k + 1],
                        spec_workspace_name(initial_workspace@, a as nat),
                    );
            }
            assert forall|n: Seq<char>|
                (exists|a: int|
                    0 <= a < outputs@.len() && (#[trigger] outputs@[a]).active && outputs@[a].name@
                        == n) implies #[trigger] selff.has_output(n) by {
                let a = choose|a: int|
                    0 <= a < outputs@.len() && (#[trigger] outputs@[a]).active && outputs@[a].name@
                        == n;
                let k = choose|k: int|
                    0 <= k < selff.sway_outputs@.len() && (#[trigger] selff.sway_outputs@[k]).name@
                        == outputs@[a].name@;
            }
        }
        (selff, cmds)
    }

    /// Changes focus on the currently focused output — position
    /// `output_index`, named `output_name`, as the window manager
    /// reported it — to `tag`, returning that output's borrows first.
    pub fn focus_to_workspace(&mut self, tag: &str, output_index: usize, output_name: &str) -> (cmds:
        Vec<WmCommand>)
        requires
            old(self).wf(),
            old(self).has_output(output_name@),
            output_index < usize::MAX,
        ensures
            final(self).wf(),
            final(self).sway_outputs@.len() == old(self).sway_outputs@.len(),
            ({
                let idx = old(self).output_index_of(output_name@);
                let st0 = old(self).sway_outputs@[idx];
                let st1 = final(self).sway_outputs@[idx];
                &&& forall|j: int|
                    0 <= j < old(self).sway_outputs@.len() && j != idx
                        ==> final(self).sway_outputs@[j] == old(self).sway_outputs@[j]
                &&& st1.name == st0.name
                &&& st1@ == switch_step(st0@, tag@)
                &&& (tag@ == st0@.focused ==> st1 == st0 && cmds@ == Seq::<WmCommand>::empty())
                &&& (tag@ != st0@.focused ==> cmds@.len() >= 1 && is_switch_to(
                    cmds@.last(),
                    spec_workspace_name(tag@, output_index as nat),
                ) && returns_all_borrowed(
                    cmds@.drop_last(),
                    st0@.borrowed,
                    output_index as nat,
                ))
            }),
    {
        let k = self.find_output(output_name).unwrap();
        proof {
            old(self).lemma_output_index_unique(k as int);
        }
        let mut st = self.sway_outputs.remove(k);
        let cmds = st.change_focused_tag(tag, output_index);
        let ghost st1 = st;
        self.sway_outputs.insert(k, st);
        proof {
            assert(self.sway_outputs@ =~= old(self).sway_outputs@.update(k as int, st1));
            self.lemma_frame_update(*old(self), k as int, st1);
        }
        cmds
    }

    /// After one machine at position `k` was replaced by a well-formed
    /// machine of the same output name, the coordinator is still well
    /// formed and every other machine is untouched.
    proof fn lemma_frame_update(&self, pre: Swayless, k: int, st1: SwaylessOutput)
        requires
            pre.wf(),
            0 <= k < pre.sway_outputs@.len(),
            st1.wf(),
            st1.name == pre.sway_outputs@[k].name,
            self.sway_outputs@ == pre.sway_outputs@.update(k, st1),
        ensures
            self.wf(),
            self.sway_outputs@.len() == pre.sway_outputs@.len(),
            self.sway_outputs@[k] == st1,
            forall|j: int|
                0 <= j < pre.sway_outputs@.len() && j != k ==> self.sway_outputs@[j]
                    == pre.sway_outputs@[j],
    {
        assert forall|a: int, b: int| 0 <= a < b < self.sway_outputs@.len() implies (
        #[trigger] self.sway_outputs@[a]).name@ != (#[trigger] self.sway_outputs@[b]).name@ by {
            assert(self.sway_outputs@[a].name@ == pre.sway_outputs@[a].name@);
            assert(self.sway_outputs@[b].name@ == pre.sway_outputs@[b].name@);
        }
        assert forall|a: int| 0 <= a < self.sway_outputs@.len() implies (
        #[trigger] self.sway_outputs@[a]).wf() by {
            if a != k {
                assert(self.sway_outputs@[a] == pre.sway_outputs@[a]);
            }
        }
    }

    /// Moves the focused container to `tag` on the currently focused
    /// output. Where that output is borrowing from `tag`, the container
    /// is recorded as borrowed the other way and moved to the focused
    /// tag's concrete workspace — it stays at home, since home and
    /// destination coincide. Otherwise the container leaves whatever
    /// borrow record held it and moves straight to `tag`'s concrete
    /// workspace.
    pub fn move_container_to_workspace(
        &mut self,
        tag: &str,
        output_index: usize,
        output_name: &str,
        focused_container: i64,
    ) -> (cmds: Vec<WmCommand>)
        requires
            old(self).wf(),
            old(self).has_output(output_name@),
            output_index < usize::MAX,
        ensures
            final(self).wf(),
            final(self).sway_outputs@.len() == old(self).sway_outputs@.len(),
            ({
                let idx = old(self).output_index_of(output_name@);
                let st0 = old(self).sway_outputs@[idx];
                let st1 = final(self).sway_outputs@[idx];
                &&& forall|j: int|
                    0 <= j < old(self).sway_outputs@.len() && j != idx
                        ==> final(self).sway_outputs@[j] == old(self).sway_outputs@[j]
                &&& st1.name == st0.name
                &&& st1@.focused == st0@.focused
                &&& st1@.prev == st0@.prev
                &&& cmds@.len() == 1
                &&& cmds@[0] is MoveFocusedToWorkspace
                &&& (st0@.borrowed.contains_key(tag@) ==> st1@.borrowed == borrow_one_step(
                    st0@.borrowed,
                    tag@,
                    focused_container,
                ) && cmds@[0]->target@ == spec_workspace_name(st0@.focused, output_index as nat))
                &&& (!st0@.borrowed.contains_key(tag@) ==> st1@.borrowed == strip_id(
                    st0@.borrowed,
                    focused_container,
                ) && cmds@[0]->target@ == spec_workspace_name(tag@, output_index as nat))
            }),
    {
        let k = self.find_output(output_name).unwrap();
        proof {
            old(self).lemma_output_index_unique(k as int);
        }
        let mut st = self.sway_outputs.remove(k);
        let mut cmds: Vec<WmCommand> = Vec::new();
        if st.is_borrowing_tag(tag) {
            st.borrow_tag_container(tag, focused_container);
            let ws = get_workspace_name(st.focused_tag.as_str(), output_index);
            cmds.push(WmCommand::MoveFocusedToWorkspace { target: ws });
        } else {
            st.unborrow_container(focused_container);
            let ws = get_workspace_name(tag, output_index);
            cmds.push(WmCommand::MoveFocusedToWorkspace { target: ws });
        }
        let ghost st1 = st;
        self.sway_outputs.insert(k, st);
        proof {
            assert(self.sway_outputs@ =~= old(self).sway_outputs@.update(k as int, st1));
            self.lemma_frame_update(*old(self), k as int, st1);
        }
        cmds
    }

    /// Moves the focused container to the output adjacent to the focused
    /// one on the listing ring, onto whatever workspace is visible
    /// there, and switches focus along with it. Fails when no output is
    /// focused or the target shows no visible workspace.
    fn move_container_to_next_or_prev_output(&self, outputs: &Vec<OutputInfo>, go_to_prev: bool) -> (r:
        Result<Vec<WmCommand>, SwaylessError>)
        ensures
            (forall|i: int| 0 <= i < outputs@.len() ==> !(#[trigger] outputs@[i]).focused) ==> r
                == Err::<Vec<WmCommand>, SwaylessError>(SwaylessError::NoFocusedOutput),
            forall|i: int|
                #[trigger] first_focused(outputs@, i) ==> {
                    let t = adjacent_index(i, outputs@.len() as int, go_to_prev);
                    match outputs@[t].visible_workspace {
                        Some(v) => r matches Ok(cmds) && cmds@.len() == 2 && cmds@[0]
                            is MoveFocusedToWorkspace && cmds@[0]->target@ == v@ && is_switch_to(
                            cmds@[1],
                            v@,
                        ),
                        None => r == Err::<Vec<WmCommand>, SwaylessError>(
                            SwaylessError::NoVisibleWorkspace,
                        ),
                    }
                },
    {
        let n = outputs.len();
        let focused = find_first_focused(outputs);
        match focused {
            None => Err(SwaylessError::NoFocusedOutput),
            Some(i) => {
                proof {
                    assert forall|i2: int| #[trigger]
                        first_focused(outputs@, i2) implies i2 == i as int by {
                        if i2 < i as int {
                            assert(!outputs@[i2].focused);
                        } else if i2 > i as int {
                            assert(!outputs@[i as int].focused);
                        }
                    }
                }
                let t = if go_to_prev {
                    if i == 0 {
                        n - 1
                    } else {
                        i - 1
                    }
                } else {
                    if i + 1 == n {
                        0
                    } else {
                        i + 1
                    }
                };
                match &outputs[t].visible_workspace {
                    None => Err(SwaylessError::NoVisibleWorkspace),
                    Some(v) => {
                        let mut cmds: Vec<WmCommand> = Vec::new();
                        cmds.push(WmCommand::MoveFocusedToWorkspace { target: v.clone() });
                        cmds.push(WmCommand::SwitchToWorkspace { workspace: v.clone() });
                        Ok(cmds)
                    },
                }
            },
        }
    }

    /// Moves the focused container to the next output on the ring,
    /// following it with focus.
    pub fn move_container_to_next_output(&self, outputs: &Vec<OutputInfo>) -> (r: Result<
        Vec<WmCommand>,
        SwaylessError,
    >)
        ensures
            (forall|i: int| 0 <= i < outputs@.len() ==> !(#[trigger] outputs@[i]).focused) ==> r
                == Err::<Vec<WmCommand>, SwaylessError>(SwaylessError::NoFocusedOutput),
            forall|i: int|
                #[trigger] first_focused(outputs@, i) ==> {
                    let t = adjacent_index(i, outputs@.len() as int, false);
                    match outputs@[t].visible_workspace {
                        Some(v) => r matches Ok(cmds) && cmds@.len() == 2 && cmds@[0]
                            is MoveFocusedToWorkspace && cmds@[0]->target@ == v@ && is_switch_to(
                            cmds@[1],
                            v@,
                        ),
                        None => r == Err::<Vec<WmCommand>, SwaylessError>(
                            SwaylessError::NoVisibleWorkspace,
                        ),
                    }
                },
    {
        self.move_container_to_next_or_prev_output(outputs, false)
    }

    /// Moves the focused container to the previous output on the ring,
    /// following it with focus.
    pub fn move_container_to_prev_output(&self, outputs: &Vec<OutputInfo>) -> (r: Result<
        Vec<WmCommand>,
        SwaylessError,
    >)
        ensures
            (forall|i: int| 0 <= i < outputs@.len() ==> !(#[trigger] outputs@[i]).focused) ==> r
                == Err::<Vec<WmCommand>, SwaylessError>(SwaylessError::NoFocusedOutput),
            forall|i: int|
                #[trigger] first_focused(outputs@, i) ==> {
                    let t = adjacent_index(i, outputs@.len() as int, true);
                    match outputs@[t].visible_workspace {
                        Some(v) => r matches Ok(cmds) && cmds@.len() == 2 && cmds@[0]
                            is MoveFocusedToWorkspace && cmds@[0]->target@ == v@ && is_switch_to(
                            cmds@[1],
                            v@,
                        ),
                        None => r == Err::<Vec<WmCommand>, SwaylessError>(
                            SwaylessError::NoVisibleWorkspace,
                        ),
                    }
                },
    {
        self.move_container_to_next_or_prev_output(outputs, true)
    }

    /// Brings `from_tag`'s containers onto the focused tag of the
    /// currently focused output, or gives them back: where that output
    /// is already borrowing from `from_tag`, the borrows are returned;
    /// otherwise `containers` — what the window manager reported on
    /// `from_tag`'s concrete workspace — is recorded as borrowed and one
    /// filter-move relocates everything from that workspace onto the
    /// focused tag's.
    pub fn move_workspace_containers_to_here(
        &mut self,
        from_tag: &str,
        output_index: usize,
        output_name: &str,
        containers: &Vec<i64>,
    ) -> (cmds: Vec<WmCommand>)
        requires
            old(self).wf(),
            old(self).has_output(output_name@),
            output_index < usize::MAX,
        ensures
            final(self).wf(),
            final(self).sway_outputs@.len() == old(self).sway_outputs@.len(),
            ({
                let idx = old(self).output_index_of(output_name@);
                let st0 = old(self).sway_outputs@[idx];
                let st1 = final(self).sway_outputs@[idx];
                &&& forall|j: int|
                    0 <= j < old(self).sway_outputs@.len() && j != idx
                        ==> final(self).sway_outputs@[j] == old(self).sway_outputs@[j]
                &&& st1.name == st0.name
                &&& st1@.focused == st0@.focused
                &&& st1@.prev == st0@.prev
                &&& (can_return(st0@.borrowed, from_tag@) ==> st1@.borrowed == return_step(
                    st0@.borrowed,
                    from_tag@,
                ) && returns_all_borrowed(
                    cmds@,
                    Map::<Seq<char>, Set<i64>>::empty().insert(
                        from_tag@,
                        set_at(st0@.borrowed, from_tag@),
                    ),
                    output_index as nat,
                ))
                &&& (!can_return(st0@.borrowed, from_tag@) ==> st1@.borrowed == borrow_step(
                    st0@.borrowed,
                    from_tag@,
                    containers@.to_set(),
                ) && cmds@.len() == 1 && cmds@[0] is MoveMatchingToWorkspace
                    && cmds@[0]->from_workspace@ == spec_workspace_name(
                    from_tag@,
                    output_index as nat,
                ) && cmds@[0]->to_workspace@ == spec_workspace_name(
                    st0@.focused,
                    output_index as nat,
                ))
            }),
    {
        let k = self.find_output(output_name).unwrap();
        proof {
            old(self).lemma_output_index_unique(k as int);
        }
        let mut st = self.sway_outputs.remove(k);
        let (returned, returned_cmds) = st.return_containers(from_tag, output_index);
        let cmds: Vec<WmCommand>;
        if returned {
            cmds = returned_cmds;
        } else {
            st.borrow_tag_containers(from_tag, containers);
            let from_ws = get_workspace_name(from_tag, output_index);
            let to_ws = get_workspace_name(st.focused_tag.as_str(), output_index);
            let mut v: Vec<WmCommand> = Vec::new();
            v.push(
                WmCommand::MoveMatchingToWorkspace {
                    from_workspace: from_ws,
                    to_workspace: to_ws,
                },
            );
            cmds = v;
        }
        let ghost st1 = st;
        self.sway_outputs.insert(k, st);
        proof {
            assert(self.sway_outputs@ =~= old(self).sway_outputs@.update(k as int, st1));
            self.lemma_frame_update(*old(self), k as int, st1);
        }
        cmds
    }

    /// Toggles the currently focused output back to its previous tag.
    pub fn alt_tab_tag(&mut self, output_index: usize, output_name: &str) -> (cmds: Vec<WmCommand>)
        requires
            old(self).wf(),
            old(self).has_output(output_name@),
            output_index < usize::MAX,
        ensures
            final(self).wf(),
            final(self).sway_outputs@.len() == old(self).sway_outputs@.len(),
            ({
                let idx = old(self).output_index_of(output_name@);
                let st0 = old(self).sway_outputs@[idx];
                let st1 = final(self).sway_outputs@[idx];
                &&& forall|j: int|
                    0 <= j < old(self).sway_outputs@.len() && j != idx
                        ==> final(self).sway_outputs@[j] == old(self).sway_outputs@[j]
                &&& st1.name == st0.name
                &&& st1@ == toggle_step(st0@)
                &&& (st0@.prev == st0@.focused ==> st1 == st0 && cmds@ == Seq::<
                    WmCommand,
                >::empty())
                &&& (st0@.prev != st0@.focused ==> cmds@.len() >= 1 && is_switch_to(
                    cmds@.last(),
                    spec_workspace_name(st0@.prev, output_index as nat),
                ) && returns_all_borrowed(
                    cmds@.drop_last(),
                    st0@.borrowed,
                    output_index as nat,
                ))
            }),
    {
        let k = self.find_output(output_name).unwrap();
        proof {
            old(self).lemma_output_index_unique(k as int);
        }
        let mut st = self.sway_outputs.remove(k);
        let cmds = st.alt_tab(output_index);
        let ghost st1 = st;
        self.sway_outputs.insert(k, st);
        proof {
            assert(self.sway_outputs@ =~= old(self).sway_outputs@.update(k as int, st1));
            self.lemma_frame_update(*old(self), k as int, st1);
        }
        cmds
    }

    /// Whether a machine exists for the output of this name.
    pub fn knows_output(&self, name: &str) -> (r: bool)
        ensures
            r == self.has_output(name@),
    {
        self.find_output(name).is_some()
    }

    /// The concrete workspace name for the tag `workspace_name` on the
    /// output at `output_index`.
    pub fn get_workspace_name(&self, workspace_name: &str, output_index: usize) -> (r: String)
        requires
            output_index < usize::MAX,
        ensures
            r@ == spec_workspace_name(workspace_name@, output_index as nat),
    {
        crate::names::get_workspace_name(workspace_name, output_index)
    }

    /// Bookkeeping for a workspace focus the window manager reported on
    /// its own: the concrete name is parsed back into a tag and an
    /// output ordinal, and where a machine exists for the output at that
    /// ordinal its focused and previous tag are adjusted, with no
    /// command issued. Reports whether any machine was adjusted.
    pub fn update_focused(&mut self, workspace_name: &str, outputs: &Vec<OutputInfo>) -> (r: bool)
        requires
            old(self).wf(),
        ensures
            final(self).wf(),
            ({
                let (t, ord) = spec_parse_name(workspace_name@);
                if ord < outputs@.len() && old(self).has_output(outputs@[ord as int].name@) {
                    let idx = old(self).output_index_of(outputs@[ord as int].name@);
                    &&& r == true
                    &&& final(self).sway_outputs@.len() == old(self).sway_outputs@.len()
                    &&& forall|j: int|
                        0 <= j < old(self).sway_outputs@.len() && j != idx
                            ==> final(self).sway_outputs@[j] == old(self).sway_outputs@[j]
                    &&& final(self).sway_outputs@[idx].name == old(self).sway_outputs@[idx].name
                    &&& final(self).sway_outputs@[idx]@ == observe_step(
                        old(self).sway_outputs@[idx]@,
                        t,
                    )
                } else {
                    &&& r == false
                    &&& *final(self) == *old(self)
                }
            }),
    {
        let parsed = parse_workspace_name(workspace_name);
        let ord = parsed.1;
        if ord >= outputs.len() {
            return false;
        }
        match self.find_output(outputs[ord].name.as_str()) {
            None => false,
            Some(k) => {
                proof {
                    old(self).lemma_output_index_unique(k as int);
                }
                let mut st = self.sway_outputs.remove(k);
                st.observe_focused_tag(parsed.0.as_str());
                let ghost st1 = st;
                self.sway_outputs.insert(k, st);
                proof {
                    assert(self.sway_outputs@ =~= old(self).sway_outputs@.update(k as int, st1));
                    self.lemma_frame_update(*old(self), k as int, st1);
                }
                true
            },
        }
    }
}

/// The position of the first output marked focused, if any.
fn find_first_focused(outputs: &Vec<OutputInfo>) -> (r: Option<usize>)
    ensures
        match r {
            Some(i) => first_focused(outputs@, i as int),
            None => forall|j: int| 0 <= j < outputs@.len() ==> !(#[trigger] outputs@[j]).focused,
        },
{
    let mut i: usize = 0;
    while i < outputs.len()
        invariant
            i <= outputs@.len(),
            forall|j: int| 0 <= j < i ==> !(#[trigger] outputs@[j]).focused,
        decreases outputs@.len() - i,
    {
        if outputs[i].focused {
            return Some(i);
        }
        i = i + 1;
    }
    None
}

} // verus!
