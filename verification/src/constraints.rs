//! Constraints: a precondition/property/action triple with thresholds
//! that classify the draft as satisfied, improvable, needing action, or
//! broken; and the constraints the engine itself always applies.

use vstd::prelude::*;

use crate::actions::ConstraintActionPtr;
use crate::collection::{spec_piles_wf, CardColl};
use crate::costs::{Cost, CostSet};
use crate::properties::{
    spec_is_selection_property, spec_pile_meets, spec_sel_bounds, spec_selection_meets,
    CardGroupProperty, CostAndTypeProperty, FailProperty, KeywordProperty, NameProperty,
    NoteProperty, OtherInteractionProperty, PropertyPtr, TypeProperty,
};
use crate::selection::{SelectionPtr, SelectionState};

verus! {

/// How a constraint classifies the current draft.
#[derive(PartialEq, Eq, Structural, Clone, Copy, Debug)]
pub enum ConsResult {
    ConsOK,
    ConsActionReq,
    ConsMorePossible,
    ConsFail,
}

/// How many chosen piles meet a pile-level property.
pub open spec fn spec_pile_count(p: PropertyPtr, piles: Seq<usize>, col: CardColl) -> int
    decreases piles.len(),
{
    if piles.len() == 0 {
        0
    } else {
        spec_pile_count(p, piles.drop_last(), col) + if piles.last() < col.state.piles@.len()
            && spec_pile_meets(p, col.state.piles@[piles.last() as int]) {
            1int
        } else {
            0int
        }
    }
}

/// The count a constraint computes for a property: one for the whole
/// draft if it is a selection property, else one per matching pile.
pub open spec fn spec_prop_count(p: PropertyPtr, sel: SelectionState, col: CardColl) -> int {
    if spec_is_selection_property(p) {
        if spec_selection_meets(p, sel, col) {
            1int
        } else {
            0int
        }
    } else {
        spec_pile_count(p, sel.piles@, col)
    }
}

/// A precondition, a property, an optional fix, and the four thresholds.
pub struct Constraint {
    pub property: PropertyPtr,
    pub precondition: Option<PropertyPtr>,
    pub action: Option<ConstraintActionPtr>,
    pub prop_active: u64,
    pub prop_satisfied: u64,
    pub prop_inactive: u64,
    pub prop_broken: u64,
    pub why: String,
}

pub type ConstraintPtr = Constraint;

/// The state machine of one constraint over the current draft.
pub open spec fn spec_status(c: Constraint, sel: SelectionState, col: CardColl) -> ConsResult {
    let active = match c.precondition {
        Some(pre) => spec_prop_count(pre, sel, col) >= c.prop_active as int,
        None => true,
    };
    if !active {
        ConsResult::ConsOK
    } else {
        let q = spec_prop_count(c.property, sel, col);
        if q >= c.prop_broken as int {
            ConsResult::ConsFail
        } else if q >= c.prop_inactive as int {
            ConsResult::ConsOK
        } else if q >= c.prop_satisfied as int {
            ConsResult::ConsMorePossible
        } else {
            ConsResult::ConsActionReq
        }
    }
}

fn count_prop(p: &PropertyPtr, sel: &SelectionPtr, col: &CardColl) -> (r: u64)
    requires
        spec_sel_bounds(sel.state, *col),
        spec_piles_wf(col.state.piles@),
    ensures
        r as int == spec_prop_count(*p, sel.state, *col),
{
    if p.is_selection_property() {
        if p.selection_meets(sel, col) {
            1
        } else {
            0
        }
    } else {
        let n = sel.state.piles.len();
        let mut count: u64 = 0;
        let mut i: usize = 0;
        while i < n
            invariant
                0 <= i <= n,
                n == sel.state.piles@.len(),
                spec_sel_bounds(sel.state, *col),
                !spec_is_selection_property(*p),
                count as int == spec_pile_count(*p, sel.state.piles@.subrange(0, i as int), *col),
                count <= i,
            decreases n - i,
        {
            proof {
                assert(sel.state.piles@.subrange(0, i + 1).drop_last() =~= sel.state.piles@.subrange(
                    0,
                    i as int,
                ));
            }
            let idx = sel.state.piles[i];
            if p.pile_meets(&col.state.piles[idx]) {
                count += 1;
            }
            i += 1;
        }
        proof {
            assert(sel.state.piles@.subrange(0, n as int) =~= sel.state.piles@);
        }
        count
    }
}

impl Constraint {
    /// Classify the draft: inactive, satisfied, improvable, in need of
    /// the fix, or broken beyond repair.
    pub fn get_status(&self, sel: &SelectionPtr, col: &CardColl) -> (r: ConsResult)
        requires
            spec_sel_bounds(sel.state, *col),
            spec_piles_wf(col.state.piles@),
        ensures
            r == spec_status(*self, sel.state, *col),
    {
        match &self.precondition {
            Some(pre) => {
                let count = count_prop(pre, sel, col);
                if count < self.prop_active {
                    return ConsResult::ConsOK;
                }
            },
            None => {},
        }
        let q = count_prop(&self.property, sel, col);
        if q >= self.prop_broken {
            ConsResult::ConsFail
        } else if q >= self.prop_inactive {
            ConsResult::ConsOK
        } else if q >= self.prop_satisfied {
            ConsResult::ConsMorePossible
        } else {
            ConsResult::ConsActionReq
        }
    }

    /// A constraint with no precondition, satisfied between `min` and
    /// `max` matches.
    pub fn make_ptr(
        label: String,
        prop: PropertyPtr,
        act: Option<ConstraintActionPtr>,
        min: u64,
        max: u64,
    ) -> (r: ConstraintPtr)
        requires
            max < 0xffff_ffff_ffff_ffff,
        ensures
            r.property == prop,
            r.precondition is None,
            r.action == act,
            r.prop_active == 0,
            r.prop_satisfied == min,
            r.prop_inactive == min,
            r.prop_broken == max + 1,
            r.why@ == label@,
    {
        Constraint {
            property: prop,
            precondition: None,
            action: act,
            prop_active: 0,
            prop_satisfied: min,
            prop_inactive: min,
            prop_broken: max + 1,
            why: label,
        }
    }

    /// A constraint with every threshold given explicitly.
    pub fn make_ptr_full(
        label: String,
        pre: Option<PropertyPtr>,
        prop: PropertyPtr,
        act: Option<ConstraintActionPtr>,
        x: u64,
        a: u64,
        b: u64,
        c: u64,
    ) -> (r: ConstraintPtr)
        ensures
            r.property == prop,
            r.precondition == pre,
            r.action == act,
            r.prop_active == x,
            r.prop_satisfied == a,
            r.prop_inactive == b,
            r.prop_broken == c,
            r.why@ == label@,
    {
        Constraint {
            property: prop,
            precondition: pre,
            action: act,
            prop_active: x,
            prop_satisfied: a,
            prop_inactive: b,
            prop_broken: c,
            why: label,
        }
    }

    /// A constraint no draft can satisfy: it fails at once.
    pub fn unsatisfiable(label: &str) -> (r: ConstraintPtr)
        ensures
            r.property == PropertyPtr::Fail(FailProperty {}),
            r.precondition is None,
            r.action is None,
            r.prop_broken == 0,
            r.why@ == label@,
    {
        Constraint {
            property: FailProperty::make_ptr(),
            precondition: None,
            action: None,
            prop_active: 0,
            prop_satisfied: 0,
            prop_inactive: 0,
            prop_broken: 0,
            why: label.to_owned(),
        }
    }
}


/// `a` is an initial segment of `b`: the search only ever appends.
pub open spec fn seq_prefix(a: Seq<usize>, b: Seq<usize>) -> bool {
    a.len() <= b.len() && forall|i: int| 0 <= i < a.len() ==> a[i] == b[i]
}

pub proof fn lemma_prefix_push(base: Seq<usize>, cur: Seq<usize>, x: usize)
    requires
        seq_prefix(base, cur),
    ensures
        seq_prefix(base, cur.push(x)),
{
}

pub proof fn lemma_prefix_trans2(a: Seq<usize>, b: Seq<usize>, c: Seq<usize>)
    requires
        seq_prefix(a, b),
        seq_prefix(b, c),
    ensures
        seq_prefix(a, c),
{
}

pub proof fn lemma_prefix_contains(a: Seq<usize>, b: Seq<usize>, x: usize)
    requires
        seq_prefix(a, b),
        a.contains(x),
    ensures
        b.contains(x),
{
    let i = choose|i: int| 0 <= i < a.len() && a[i] == x;
    assert(b[i] == x);
}

/// What the builder requires of each constraint it runs: the reserved
/// bane tag is not a label, and any fix is usable against this catalog.
pub open spec fn constraint_wf(c: Constraint, col: CardColl) -> bool {
    &&& c.why@ != "Bane"@
    &&& match c.action {
        Some(a) => crate::actions::action_wf(a, col),
        None => true,
    }
}

pub open spec fn cons_wf(cons: Seq<Constraint>, col: CardColl) -> bool {
    forall|k: int| 0 <= k < cons.len() ==> constraint_wf(#[trigger] cons[k], col)
}

/// What a successful build of the draft `start` guarantees: the result
/// is well formed, fails no constraint and leaves none demanding action,
/// fills the supply exactly, and keeps everything `start` had chosen.
/// Every note of `a` is a note of `b`: the search only records fixes,
/// it never forgets one.
pub open spec fn notes_sub(a: SelectionState, b: SelectionState) -> bool {
    forall|u: Seq<char>| a.spec_has_note(u) ==> b.spec_has_note(u)
}

pub proof fn lemma_notes_sub_trans(a: SelectionState, b: SelectionState, c: SelectionState)
    requires
        notes_sub(a, b),
        notes_sub(b, c),
    ensures
        notes_sub(a, c),
{
    assert forall|u: Seq<char>| a.spec_has_note(u) implies c.spec_has_note(u) by {
        assert(b.spec_has_note(u));
    }
}

pub proof fn lemma_notes_sub_eq(a: SelectionState, b: SelectionState)
    requires
        a.notes@ == b.notes@,
    ensures
        notes_sub(a, b),
{
}

/// Every tag of `a` stands in `b` too.
pub open spec fn tags_sub(a: SelectionState, b: SelectionState) -> bool {
    forall|q: usize, u: Seq<char>| crate::selection::has_tag(a.tags@, q, u) ==> crate::selection::has_tag(b.tags@, q, u)
}

/// The pile carries some explanation tag.
pub open spec fn spec_pile_tagged(sel: SelectionState, q: usize) -> bool {
    exists|u: Seq<char>| crate::selection::has_tag(sel.tags@, q, u)
}

/// Every pile the draft holds beyond the first `start_len` carries a tag.
pub open spec fn added_tagged(sel: SelectionState, start_len: int) -> bool {
    forall|idx: int|
        start_len <= idx < sel.piles@.len() ==> spec_pile_tagged(sel, #[trigger] sel.piles@[idx])
}

pub proof fn lemma_tags_sub_eq(a: SelectionState, b: SelectionState)
    requires
        a.tags@ == b.tags@,
    ensures
        tags_sub(a, b),
{
}

pub proof fn lemma_tags_sub_trans(a: SelectionState, b: SelectionState, c: SelectionState)
    requires
        tags_sub(a, b),
        tags_sub(b, c),
    ensures
        tags_sub(a, c),
{
}

/// Tagged-addition records compose across an intermediate draft.
pub proof fn lemma_added_tagged_chain(a_len: int, b: SelectionState, c: SelectionState)
    requires
        0 <= a_len <= b.piles@.len(),
        seq_prefix(b.piles@, c.piles@),
        forall|idx: int|
            a_len <= idx < b.piles@.len() ==> spec_pile_tagged(b, #[trigger] b.piles@[idx]),
        tags_sub(b, c),
        added_tagged(c, b.piles@.len() as int),
    ensures
        added_tagged(c, a_len),
{
    assert forall|idx: int|
        a_len <= idx < c.piles@.len() implies spec_pile_tagged(c, #[trigger] c.piles@[idx]) by {
        if idx < b.piles@.len() {
            assert(c.piles@[idx] == b.piles@[idx]);
            assert(spec_pile_tagged(b, b.piles@[idx]));
            let u = choose|u: Seq<char>| crate::selection::has_tag(b.tags@, b.piles@[idx], u);
            assert(crate::selection::has_tag(c.tags@, b.piles@[idx], u));
        }
    }
}

pub open spec fn spec_build_ok(
    sel: SelectionState,
    start: SelectionState,
    cons: Seq<Constraint>,
    col: CardColl,
) -> bool {
    &&& sel.wf(col)
    &&& forall|k: int|
        0 <= k < cons.len() ==> spec_status(#[trigger] cons[k], sel, col)
            != ConsResult::ConsFail && spec_status(cons[k], sel, col) != ConsResult::ConsActionReq
    &&& sel.current_normal_pile_count == sel.required_cards
    &&& seq_prefix(start.piles@, sel.piles@)
    &&& sel.initial_cards == start.initial_cards
    &&& notes_sub(start, sel)
    &&& tags_sub(start, sel)
    &&& added_tagged(sel, start.piles@.len() as int)
}

/// From one draft to the next, a successful build's guarantee composes.
pub proof fn lemma_build_ok_chain(
    sel: SelectionState,
    mid: SelectionState,
    start: SelectionState,
    cons: Seq<Constraint>,
    col: CardColl,
)
    requires
        spec_build_ok(sel, mid, cons, col),
        seq_prefix(start.piles@, mid.piles@),
        mid.initial_cards == start.initial_cards,
        notes_sub(start, mid),
        tags_sub(start, mid),
        forall|idx: int|
            start.piles@.len() <= idx < mid.piles@.len() ==> spec_pile_tagged(
                mid,
                #[trigger] mid.piles@[idx],
            ),
    ensures
        spec_build_ok(sel, start, cons, col),
{
    lemma_prefix_trans2(start.piles@, mid.piles@, sel.piles@);
    lemma_notes_sub_trans(start, mid, sel);
    lemma_tags_sub_trans(start, mid, sel);
    lemma_added_tagged_chain(start.piles@.len() as int, mid, sel);
}

impl Constraint {
    /// Run this constraint's fix, or fail if it has none.
    pub fn act(
        &self,
        start: &SelectionPtr,
        col: &CardColl,
        cons: &Vec<Constraint>,
        fuel: u64,
    ) -> (r: Result<SelectionPtr, String>)
        requires
            spec_piles_wf(col.state.piles@),
            start.state.wf(*col),
            cons_wf(cons@, *col),
            constraint_wf(*self, *col),
        ensures
            r matches Ok(sel) ==> spec_build_ok(sel.state, start.state, cons@, *col),
            self.action is None ==> r is Err,
            self.action matches Some(a) ==> (a matches
                crate::actions::ConstraintActionPtr::FindBane(_) ==> (r matches Ok(sel) ==> {
                &&& sel.state.spec_has_note("hasBane"@)
                &&& (!start.state.spec_has_note("hasBane"@) ==> sel.state.required_cards as int
                    == start.state.required_cards as int + 1)
            })),
            self.action matches Some(a) ==> (a matches
                crate::actions::ConstraintActionPtr::AddGroup(g) ==> (r matches Ok(sel)
                ==> sel.state.spec_has_note("added"@ + g.group@))),
            self.action matches Some(a) ==> (a matches
                crate::actions::ConstraintActionPtr::AddMissingDependency(_) ==> {
                &&& (!crate::actions::spec_card_dep_missing(start.state, *col) ==> r is Err)
                &&& (r matches Ok(sel) ==> crate::actions::spec_card_dep_added(
                    start.state,
                    sel.state,
                    *col,
                ))
            }),
            self.action matches Some(a) ==> (a matches
                crate::actions::ConstraintActionPtr::AddMissingDependencyGroup(_) ==> {
                &&& (!crate::properties::spec_missing_interacting_group(start.state, *col)
                    ==> r is Err)
                &&& (r matches Ok(sel) ==> crate::actions::spec_groups_noted(
                    start.state.piles@,
                    sel.state,
                    *col,
                ))
            }),
        decreases fuel, 3int,
    {
        match &self.action {
            Some(a) => a.apply(self.why.as_str(), start, col, cons, fuel),
            None => Err(String::new()),
        }
    }
}

} // verus!
