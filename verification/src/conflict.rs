//! Conflict resolver: decides, for each destination path that already
//! exists, whether to ignore, rename or overwrite, with a sticky
//! "apply to all" decision per operation.
//!
//! A sticky Rename is deliberately never auto-applied: every rename needs a
//! distinct target name, so a Rename answer with "apply to all" checked is
//! recorded but the next conflict still prompts.

use vstd::prelude::*;

verus! {

/// The user's three choices for an existing destination entry.
#[derive(Clone, Copy, Debug, PartialEq, Eq, Structural)]
pub enum RenameOption {
    Ignore,
    Rename,
    Overwrite,
}

/// What the rename dialog hands back: the chosen option, the new file name
/// when the option is Rename, and whether the choice applies to every later
/// conflict of the same operation.
#[derive(Clone)]
pub struct RenameWindowReturn {
    pub filename: Option<String>,
    pub option: RenameOption,
    pub apply_to_all: bool,
}

/// Builds the dialog's answer for the Overwrite button.
pub fn on_overwrite(apply_to_all: bool) -> (r: RenameWindowReturn)
    ensures
        r.option == RenameOption::Overwrite,
        r.filename is None,
        r.apply_to_all == apply_to_all,
{
    RenameWindowReturn { filename: None, option: RenameOption::Overwrite, apply_to_all }
}

/// Builds the dialog's answer for the Rename button.
pub fn on_rename(newname: String, apply_to_all: bool) -> (r: RenameWindowReturn)
    ensures
        r.option == RenameOption::Rename,
        r.filename == Some(newname),
        r.apply_to_all == apply_to_all,
{
    RenameWindowReturn { filename: Some(newname), option: RenameOption::Rename, apply_to_all }
}

/// Builds the dialog's answer for the Ignore button.
pub fn on_ignore(apply_to_all: bool) -> (r: RenameWindowReturn)
    ensures
        r.option == RenameOption::Ignore,
        r.filename is None,
        r.apply_to_all == apply_to_all,
{
    RenameWindowReturn { filename: None, option: RenameOption::Ignore, apply_to_all }
}

/// Per-operation sticky state: fresh until the user checks "apply to all",
/// sticky with the chosen option afterwards.
#[derive(Clone, Copy, PartialEq, Eq, Structural)]
pub struct ConflictState {
    pub apply_to_all: bool,
    pub sticky: RenameOption,
}

/// Whether a conflict under this state has to ask the user: always, except
/// when a sticky non-Rename decision is in force.
pub open spec fn spec_needs_prompt(st: ConflictState) -> bool {
    !(st.apply_to_all && st.sticky != RenameOption::Rename)
}

/// The sticky state after the user answered one prompt.
pub open spec fn spec_after_response(st: ConflictState, resp: RenameWindowReturn) -> ConflictState {
    if resp.apply_to_all {
        ConflictState { apply_to_all: true, sticky: resp.option }
    } else {
        ConflictState { apply_to_all: false, ..st }
    }
}

impl ConflictState {
    /// The state at the start of every operation: no sticky decision.
    pub fn new() -> (r: ConflictState)
        ensures
            r.apply_to_all == false,
            r.sticky == RenameOption::Rename,
            spec_needs_prompt(r),
    {
        ConflictState { apply_to_all: false, sticky: RenameOption::Rename }
    }

    /// The decision to apply without asking, if one is in force.
    pub fn sticky_decision(&self) -> (r: Option<RenameOption>)
        ensures
            r is Some <==> !spec_needs_prompt(*self),
            r is Some ==> r->0 == self.sticky && self.sticky != RenameOption::Rename,
    {
        if self.apply_to_all && !matches!(self.sticky, RenameOption::Rename) {
            Some(self.sticky)
        } else {
            None
        }
    }

    /// Records one dialog answer.
    pub fn note_response(&mut self, resp: &RenameWindowReturn)
        ensures
            *final(self) == spec_after_response(*old(self), *resp),
    {
        if resp.apply_to_all {
            self.apply_to_all = true;
            self.sticky = resp.option;
        } else {
            self.apply_to_all = false;
        }
    }
}

/// How many prompts a run of conflicts costs, given the answers the user
/// would give at each prompt that is actually shown. A conflict under a
/// sticky non-Rename state costs nothing and leaves the state unchanged.
pub open spec fn spec_prompts_used(st: ConflictState, resps: Seq<RenameWindowReturn>) -> nat
    decreases resps.len(),
{
    if resps.len() == 0 {
        0
    } else if spec_needs_prompt(st) {
        1 + spec_prompts_used(spec_after_response(st, resps.first()), resps.drop_first())
    } else {
        spec_prompts_used(st, resps.drop_first())
    }
}

/// Sticky propagation for Overwrite (and equally Ignore): once a prompt is
/// answered with a non-Rename option and "apply to all", every later
/// conflict of the operation is decided without a single further prompt,
/// whatever answers the user would have given.
pub proof fn lemma_apply_to_all_propagates(
    st: ConflictState,
    resp: RenameWindowReturn,
    later: Seq<RenameWindowReturn>,
)
    requires
        resp.apply_to_all,
        resp.option != RenameOption::Rename,
    ensures
        spec_prompts_used(spec_after_response(st, resp), later) == 0,
{
    lemma_no_prompts_when_sticky(spec_after_response(st, resp), later);
}

proof fn lemma_no_prompts_when_sticky(st: ConflictState, resps: Seq<RenameWindowReturn>)
    requires
        !spec_needs_prompt(st),
    ensures
        spec_prompts_used(st, resps) == 0,
    decreases resps.len(),
{
    if resps.len() > 0 {
        lemma_no_prompts_when_sticky(st, resps.drop_first());
    }
}

/// The Rename exemption: as long as every answer chooses Rename — with or
/// without "apply to all" — every conflict still prompts, because a sticky
/// Rename is never auto-applied.
pub proof fn lemma_rename_always_prompts(st: ConflictState, resps: Seq<RenameWindowReturn>)
    requires
        spec_needs_prompt(st),
        forall|i: int| 0 <= i < resps.len() ==> resps[i].option == RenameOption::Rename,
    ensures
        spec_prompts_used(st, resps) == resps.len(),
    decreases resps.len(),
{
    if resps.len() > 0 {
        let st2 = spec_after_response(st, resps.first());
        assert(spec_needs_prompt(st2));
        lemma_rename_always_prompts(st2, resps.drop_first());
    }
}

} // verus!
