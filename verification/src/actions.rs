//! Actions: the fixes a constraint can demand. Each one extends a copy
//! of the draft and hands it back to the builder.

use vstd::prelude::*;

use crate::collection::{spec_piles_wf, CardColl, CollectionIterator};
use crate::constraints::{cons_wf, lemma_prefix_push, lemma_prefix_trans2, seq_prefix, spec_build_ok, Constraint};
use crate::properties::{spec_pile_meets, CardGroupProperty, PropertyPtr};
use crate::selection::{
    has_tag, lemma_add_pile_wf, lemma_bane_wf, lemma_not_bane, lemma_note_wf, lemma_tag_wf,
    note_added, SelectionPtr, SelectionState,
};
use crate::strutil::starts_with;

verus! {

/// Iterates a pre-built list of low-cost Action piles and adjoins the
/// first that fits, widening the card cap for it.
pub struct FindBane {
    pub begin: CollectionIterator,
}

/// Iterates a pre-built list of piles and adds the first that fits.
pub struct FindPile {
    pub begin: CollectionIterator,
}

/// Brings in every pile of a named group and records `added<group>`.
pub struct AddGroup {
    pub group: String,
}

/// Adds the pile owning the first card a `card(X)` interaction misses.
pub struct AddMissingDependency {}

/// Brings in every group a `group(G)` interaction misses.
pub struct AddMissingDependencyGroup {}

/// Ensures Platinum and Colony are both present.
pub struct AddProsperity {}

/// The closed sum of fixes.
pub enum ConstraintActionPtr {
    FindBane(FindBane),
    FindPile(FindPile),
    AddGroup(AddGroup),
    AddMissingDependency(AddMissingDependency),
    AddMissingDependencyGroup(AddMissingDependencyGroup),
    AddProsperity(AddProsperity),
}

/// What must hold of a fix for the builder to run it: its pile lists
/// point into the catalog, and a bane list holds only legal banes.
pub open spec fn action_wf(a: ConstraintActionPtr, col: CardColl) -> bool {
    match a {
        ConstraintActionPtr::FindBane(fb) => forall|i: int|
            0 <= i < fb.begin.list@.len() ==> (#[trigger] fb.begin.list@[i])
                < col.state.piles@.len() && SelectionState::spec_bane_pile(
                col.state.piles@[fb.begin.list@[i] as int],
            ),
        ConstraintActionPtr::FindPile(fp) => forall|i: int|
            0 <= i < fp.begin.list@.len() ==> (#[trigger] fp.begin.list@[i])
                < col.state.piles@.len(),
        _ => true,
    }
}

impl FindBane {
    pub fn make_ptr(_col: &CardColl, begin_it: &CollectionIterator) -> (r: ConstraintActionPtr)
        ensures
            r matches ConstraintActionPtr::FindBane(fb) && fb.begin.list@ == begin_it.list@
                && fb.begin.index == begin_it.index,
    {
        ConstraintActionPtr::FindBane(FindBane { begin: begin_it.clone() })
    }
}

impl FindPile {
    pub fn make_ptr(_col: &CardColl, begin_it: &CollectionIterator) -> (r: ConstraintActionPtr)
        ensures
            r matches ConstraintActionPtr::FindPile(fp) && fp.begin.list@ == begin_it.list@
                && fp.begin.index == begin_it.index,
    {
        ConstraintActionPtr::FindPile(FindPile { begin: begin_it.clone() })
    }
}

impl AddGroup {
    pub fn make_ptr(_col: &CardColl, group: &str) -> (r: ConstraintActionPtr)
        ensures
            r matches ConstraintActionPtr::AddGroup(g) && g.group@ == group@,
    {
        ConstraintActionPtr::AddGroup(AddGroup { group: group.to_owned() })
    }
}

impl AddMissingDependency {
    pub fn make_ptr(_col: &CardColl) -> (r: ConstraintActionPtr)
        ensures
            r == ConstraintActionPtr::AddMissingDependency(AddMissingDependency {}),
    {
        ConstraintActionPtr::AddMissingDependency(AddMissingDependency {})
    }
}

impl AddMissingDependencyGroup {
    pub fn make_ptr(_col: &CardColl) -> (r: ConstraintActionPtr)
        ensures
            r == ConstraintActionPtr::AddMissingDependencyGroup(AddMissingDependencyGroup {}),
    {
        ConstraintActionPtr::AddMissingDependencyGroup(AddMissingDependencyGroup {})
    }
}

impl AddProsperity {
    pub fn make_ptr(_col: &CardColl) -> (r: ConstraintActionPtr)
        ensures
            r == ConstraintActionPtr::AddProsperity(AddProsperity {}),
    {
        ConstraintActionPtr::AddProsperity(AddProsperity {})
    }
}

/// Add one pile to a copy of the draft, tag it with an explanation that
/// opens with `<`, and hand the copy to the builder.
fn try_candidate(
    start: &SelectionPtr,
    p: usize,
    tag: &str,
    col: &CardColl,
    cons: &Vec<Constraint>,
    fuel: u64,
) -> (r: Result<SelectionPtr, String>)
    requires
        fuel >= 1,
        spec_piles_wf(col.state.piles@),
        start.state.wf(*col),
        cons_wf(cons@, *col),
        p < col.state.piles@.len(),
        !start.state.piles@.contains(p),
        tag@.len() > 0,
        tag@[0] == '<',
    ensures
        r matches Ok(sel) ==> spec_build_ok(sel.state, start.state, cons@, *col),
        r matches Ok(sel) ==> sel.state.piles@.contains(p),
    decreases fuel, 0int,
{
    let mut new_sel = start.duplicate_state();
    let ghost d0 = new_sel;
    if !new_sel.add_pile(p, col) {
        return Err(String::new());
    }
    let ghost d1 = new_sel;
    new_sel.tag_pile(p, tag);
    proof {
        lemma_add_pile_wf(d0, d1, *col, p);
        lemma_not_bane(tag@);
        lemma_tag_wf(d1, new_sel, *col, p, tag@);
        assert(seq_prefix(start.state.piles@, new_sel.piles@)) by {
            assert(new_sel.piles@ == start.state.piles@.push(p));
        }
    }
    let ghost mid = new_sel.piles@;
    let res = col.build_selection(SelectionPtr::from_state(new_sel), cons, fuel - 1);
    match res {
        Ok(s) => {
            proof {
                lemma_prefix_trans2(start.state.piles@, mid, s.state.piles@);
                assert(mid.contains(p)) by {
                    assert(mid[mid.len() - 1] == p);
                }
                crate::constraints::lemma_prefix_contains(mid, s.state.piles@, p);
                crate::constraints::lemma_notes_sub_eq(start.state, new_sel);
                assert(crate::constraints::tags_sub(start.state, new_sel));
                assert forall|idx: int|
                    start.state.piles@.len() <= idx < new_sel.piles@.len() implies
                    crate::constraints::spec_pile_tagged(
                    new_sel,
                    #[trigger] new_sel.piles@[idx],
                ) by {
                    assert(new_sel.piles@[idx] == p);
                    assert(has_tag(new_sel.tags@, p, tag@));
                }
                crate::constraints::lemma_build_ok_chain(
                    s.state,
                    new_sel,
                    start.state,
                    cons@,
                    *col,
                );
            }
            Ok(s)
        },
        Err(e) => Err(e),
    }
}

/// Some `card(X)` interaction of a chosen pile names a card whose owning
/// pile is absent from the catalog or from the draft.
pub open spec fn spec_card_dep_missing(start: SelectionState, col: CardColl) -> bool {
    exists|i: int, j: int|
        {
            let istr = (#[trigger] col.state.piles@[start.piles@[i] as int].other_interactions@[j])@;
            &&& 0 <= i < start.piles@.len()
            &&& 0 <= j < col.state.piles@[start.piles@[i] as int].other_interactions@.len()
            &&& crate::strutil::spec_starts_with(istr, "card("@)
            &&& match crate::collection::spec_pile_for_card(
                col,
                istr.subrange(5, istr.len() - 1),
            ) {
                Some(k) => !start.piles@.contains(k as usize),
                None => true,
            }
        }
}

/// Some chosen pile's `card(X)` interaction had its owning pile missing
/// from the first draft and present in the second.
pub open spec fn spec_card_dep_added(start: SelectionState, sel: SelectionState, col: CardColl) -> bool {
    exists|i: int, j: int|
        {
            let istr = (#[trigger] col.state.piles@[start.piles@[i] as int].other_interactions@[j])@;
            &&& 0 <= i < start.piles@.len()
            &&& 0 <= j < col.state.piles@[start.piles@[i] as int].other_interactions@.len()
            &&& crate::strutil::spec_starts_with(istr, "card("@)
            &&& match crate::collection::spec_pile_for_card(
                col,
                istr.subrange(5, istr.len() - 1),
            ) {
                Some(k) => !start.piles@.contains(k as usize) && sel.piles@.contains(k as usize),
                None => false,
            }
        }
}

/// The explanation tag a fix writes from its constraint's label.
pub open spec fn spec_why_label(l: Seq<char>) -> Seq<char> {
    "<why:"@ + l + ">"@
}

/// Every `group(G)` interaction of the chosen piles has its `addedG`
/// note in the draft.
pub open spec fn spec_groups_noted(chosen: Seq<usize>, sel: SelectionState, col: CardColl) -> bool {
    forall|i: int, j: int|
        {
            let istr = (#[trigger] col.state.piles@[chosen[i] as int].other_interactions@[j])@;
            (0 <= i < chosen.len() && 0 <= j
                < col.state.piles@[chosen[i] as int].other_interactions@.len()
                && crate::strutil::spec_starts_with(istr, "group("@)) ==> sel.spec_has_note(
                "added"@ + istr.subrange(6, istr.len() - 1),
            )
        }
}

impl ConstraintActionPtr {
    /// Run the fix: extend a copy of the draft as the fix prescribes and
    /// recurse into the builder; the first success wins.
    pub fn apply(
        &self,
        label: &str,
        start: &SelectionPtr,
        col: &CardColl,
        cons: &Vec<Constraint>,
        fuel: u64,
    ) -> (r: Result<SelectionPtr, String>)
        requires
            spec_piles_wf(col.state.piles@),
            start.state.wf(*col),
            cons_wf(cons@, *col),
            action_wf(*self, *col),
            label@ != "Bane"@,
        ensures
            r matches Ok(sel) ==> spec_build_ok(sel.state, start.state, cons@, *col),
            self matches ConstraintActionPtr::FindBane(_) ==> (r matches Ok(sel) ==> {
                &&& sel.state.spec_has_note("hasBane"@)
                &&& (!start.state.spec_has_note("hasBane"@) ==> sel.state.required_cards as int
                    == start.state.required_cards as int + 1)
                &&& (!start.state.spec_has_note("hasBane"@) ==> exists|q: usize|
                    has_tag(sel.state.tags@, q, "Bane"@) && #[trigger] has_tag(
                        sel.state.tags@,
                        q,
                        spec_why_label(label@),
                    ))
            }),
            self matches ConstraintActionPtr::AddGroup(g) ==> (r matches Ok(sel) ==> {
                &&& sel.state.spec_has_note("added"@ + g.group@)
                &&& (exists|q: int|
                    0 <= q < col.state.piles@.len() && (#[trigger] col.state.piles@[q]).card_group@
                        == g.group@)
                &&& (forall|q: int|
                    0 <= q < col.state.piles@.len() && (#[trigger] col.state.piles@[q]).card_group@
                        == g.group@ ==> sel.state.piles@.contains(q as usize)
                        || col.state.piles@[q].spec_is_normal())
            }),
            self matches ConstraintActionPtr::AddMissingDependency(_) ==> {
                &&& (!spec_card_dep_missing(start.state, *col) ==> r is Err)
                &&& (r matches Ok(sel) ==> spec_card_dep_added(start.state, sel.state, *col))
            },
            self matches ConstraintActionPtr::AddMissingDependencyGroup(_) ==> {
                &&& (!crate::properties::spec_missing_interacting_group(start.state, *col)
                    ==> r is Err)
                &&& (r matches Ok(sel) ==> spec_groups_noted(start.state.piles@, sel.state, *col))
            },
            self matches ConstraintActionPtr::AddProsperity(_) ==> (r matches Ok(sel) ==> {
                &&& (crate::collection::spec_pile_for_card(*col, "Platinum"@) matches Some(pi)
                    ==> sel.state.piles@.contains(pi as usize))
                &&& (crate::collection::spec_pile_for_card(*col, "Colony"@) matches Some(ci)
                    ==> sel.state.piles@.contains(ci as usize))
            }),
            self matches ConstraintActionPtr::AddProsperity(_) ==> ((
            crate::collection::spec_pile_for_card(*col, "Platinum"@) is None
                || crate::collection::spec_pile_for_card(*col, "Colony"@) is None) ==> r is Err),
        decreases fuel, 2int,
    {
        if fuel == 0 {
            return Err(String::new());
        }
        match self {
            ConstraintActionPtr::FindBane(fb) => {
                let mut it = fb.begin.clone();
                loop
                    invariant
                        spec_piles_wf(col.state.piles@),
                        start.state.wf(*col),
                        cons_wf(cons@, *col),
                        fuel >= 1,
                        self matches ConstraintActionPtr::FindBane(_),
                        forall|i: int|
                            0 <= i < it.list@.len() ==> (#[trigger] it.list@[i])
                                < col.state.piles@.len() && SelectionState::spec_bane_pile(
                                col.state.piles@[it.list@[i] as int],
                            ),
                        label@ != "Bane"@,
                    decreases it.list@.len() - it.index,
                {
                    let ghost oi = it.index;
                    let next = match it.next() {
                        Some(v) => v,
                        None => {
                            break ;
                        },
                    };
                    proof {
                        assert(next == it.list@[oi as int]);
                        assert(next < col.state.piles@.len() && SelectionState::spec_bane_pile(
                            col.state.piles@[next as int],
                        ));
                    }
                    if !start.contains(next) && !start.has_note("hasBane") {
                        let mut new_sel = start.duplicate_state();
                        let ghost d0 = new_sel;
                        if new_sel.required_cards < 255 {
                            new_sel.increase_required_piles();
                            let ghost d1 = new_sel;
                            if new_sel.add_pile(next, col) {
                                let ghost d2 = new_sel;
                                new_sel.tag_pile(next, "Bane");
                                let ghost d3 = new_sel;
                                let mut why = String::new();
                                why = why.concat("<why:");
                                why = why.concat(label);
                                why = why.concat(">");
                                new_sel.tag_pile(next, why.as_str());
                                let ghost d4 = new_sel;
                                new_sel.add_note("hasBane");
                                proof {
                                    reveal_strlit("<why:");
                                    assert(why@[0] == '<');
                                    lemma_not_bane(why@);
                                    assert(note_added(new_sel, d0, "hasBane"@)) by {
                                        assert(d4.notes@ == d0.notes@);
                                    }
                                    assert forall|q: usize, u: Seq<char>|
                                        has_tag(new_sel.tags@, q, u) <==> (has_tag(d0.tags@, q, u)
                                            || (q == next && u == "Bane"@) || (q == next && u
                                            == why@)) by {
                                        assert(new_sel.tags@ == d4.tags@);
                                        assert(d2.tags@ == d0.tags@);
                                    }
                                    assert(d2.current_normal_pile_count as int
                                        == d0.current_normal_pile_count as int + 1) by {
                                        assert(col.state.piles@[next as int].spec_is_normal());
                                    }
                                    lemma_bane_wf(d0, new_sel, *col, next, why@);
                                    assert(seq_prefix(start.state.piles@, new_sel.piles@)) by {
                                        assert(new_sel.piles@ == start.state.piles@.push(next));
                                    }
                                }
                                let res = col.build_selection(
                                    SelectionPtr::from_state(new_sel),
                                    cons,
                                    fuel - 1,
                                );
                                match res {
                                    Ok(s) => {
                                        proof {
                                            lemma_prefix_trans2(
                                                start.state.piles@,
                                                start.state.piles@.push(next),
                                                s.state.piles@,
                                            );
                                            crate::constraints::lemma_notes_sub_trans(
                                                start.state,
                                                new_sel,
                                                s.state,
                                            );
                                            assert(crate::constraints::tags_sub(
                                                start.state,
                                                new_sel,
                                            ));
                                            assert forall|idx: int|
                                                start.state.piles@.len() <= idx
                                                    < new_sel.piles@.len() implies
                                                crate::constraints::spec_pile_tagged(
                                                new_sel,
                                                #[trigger] new_sel.piles@[idx],
                                            ) by {
                                                assert(new_sel.piles@[idx] == next);
                                                assert(has_tag(new_sel.tags@, next, "Bane"@));
                                            }
                                            crate::constraints::lemma_build_ok_chain(
                                                s.state,
                                                new_sel,
                                                start.state,
                                                cons@,
                                                *col,
                                            );
                                            assert(s.state.spec_has_note("hasBane"@)) by {
                                                assert(new_sel.spec_has_note("hasBane"@));
                                            }
                                            assert(s.state.required_cards as int
                                                == start.state.required_cards as int + 1) by {
                                                assert(s.state.wf_bane(*col));
                                                assert(start.state.wf_bane(*col));
                                                assert(s.state.initial_cards
                                                    == start.state.initial_cards);
                                            }
                                            assert(why@ =~= spec_why_label(label@));
                                            assert(has_tag(s.state.tags@, next, "Bane"@)) by {
                                                assert(has_tag(new_sel.tags@, next, "Bane"@));
                                            }
                                            assert(has_tag(
                                                s.state.tags@,
                                                next,
                                                spec_why_label(label@),
                                            )) by {
                                                assert(has_tag(new_sel.tags@, next, why@));
                                            }
                                        }
                                        return Ok(s);
                                    },
                                    Err(_) => {},
                                }
                            }
                        }
                    }
                }
                Err(String::new())
            },
            ConstraintActionPtr::FindPile(fp) => {
                let mut it = fp.begin.clone();
                loop
                    invariant
                        spec_piles_wf(col.state.piles@),
                        start.state.wf(*col),
                        cons_wf(cons@, *col),
                        fuel >= 1,
                        self matches ConstraintActionPtr::FindPile(_),
                        forall|i: int|
                            0 <= i < it.list@.len() ==> (#[trigger] it.list@[i])
                                < col.state.piles@.len(),
                        label@ != "Bane"@,
                    decreases it.list@.len() - it.index,
                {
                    let ghost oi = it.index;
                    let next = match it.next() {
                        Some(v) => v,
                        None => {
                            break ;
                        },
                    };
                    proof {
                        assert(next == it.list@[oi as int]);
                        assert(next < col.state.piles@.len());
                    }
                    if !start.contains(next) {
                        let mut tag = String::new();
                        tag = tag.concat("<why?");
                        tag = tag.concat(label);
                        tag = tag.concat(">");
                        proof {
                            reveal_strlit("<why?");
                            assert(tag@[0] == '<');
                        }
                        match try_candidate(start, next, tag.as_str(), col, cons, fuel) {
                            Ok(s) => {
                                return Ok(s);
                            },
                            Err(_) => {},
                        }
                    }
                }
                Err(String::new())
            },
            ConstraintActionPtr::AddGroup(g) => apply_add_group(
                g.group.as_str(),
                label,
                start,
                col,
                cons,
                fuel,
            ),
            ConstraintActionPtr::AddMissingDependency(_) => apply_missing_dependency(
                start,
                col,
                cons,
                fuel,
            ),
            ConstraintActionPtr::AddMissingDependencyGroup(_) => apply_missing_dependency_group(
                start,
                col,
                cons,
                fuel,
            ),
            ConstraintActionPtr::AddProsperity(_) => apply_prosperity(label, start, col, cons, fuel),
        }
    }
}

/// Duplicate the draft, add every pile of the group, tag what arrived,
/// and record `added<group>`; then recurse once.
fn apply_add_group(
    group: &str,
    label: &str,
    start: &SelectionPtr,
    col: &CardColl,
    cons: &Vec<Constraint>,
    fuel: u64,
) -> (r: Result<SelectionPtr, String>)
    requires
        fuel >= 1,
        spec_piles_wf(col.state.piles@),
        start.state.wf(*col),
        cons_wf(cons@, *col),
        label@ != "Bane"@,
    ensures
        r matches Ok(sel) ==> spec_build_ok(sel.state, start.state, cons@, *col),
        r matches Ok(sel) ==> sel.state.spec_has_note("added"@ + group@),
        r matches Ok(sel) ==> (exists|q: int|
            0 <= q < col.state.piles@.len() && (#[trigger] col.state.piles@[q]).card_group@
                == group@),
        r matches Ok(sel) ==> (forall|q: int|
            0 <= q < col.state.piles@.len() && (#[trigger] col.state.piles@[q]).card_group@
                == group@ ==> sel.state.piles@.contains(q as usize)
                || col.state.piles@[q].spec_is_normal()),
    decreases fuel, 1int,
{
    let mut new_sel = start.duplicate_state();
    let p = CardGroupProperty::make_ptr(group);
    let begin = match col.get_iterators(&p) {
        Some(v) => v,
        None => {
            let mut msg = String::new();
            msg = msg.concat("Tried to add group (");
            msg = msg.concat(group);
            msg = msg.concat(") but no cards belonging to it found in the collection.");
            return Err(msg);
        },
    };
    let mut tag = String::new();
    tag = tag.concat("<why:");
    tag = tag.concat(label);
    tag = tag.concat(">");
    proof {
        reveal_strlit("<why:");
        assert(tag@[0] == '<');
        lemma_not_bane(tag@);
    }
    let mut it = begin;
    let ghost glist = it.list@;
    proof {
        assert forall|i: int|
            0 <= i < col.state.piles@.len() && (#[trigger] col.state.piles@[i]).card_group@
                == group@ implies exists|j: int| 0 <= j < glist.len() && glist[j] == i as usize by {
            assert(spec_pile_meets(p, col.state.piles@[i]));
        }
        assert forall|i: int|
            0 <= i < glist.len() implies col.state.piles@[(#[trigger] glist[i]) as int].card_group@
                == group@ by {
            assert(spec_pile_meets(p, col.state.piles@[glist[i] as int]));
        }
    }
    while it.index < it.list.len()
        invariant
            it.list@ == glist,
            spec_piles_wf(col.state.piles@),
            new_sel.wf(*col),
            cons_wf(cons@, *col),
            fuel >= 1,
            tag@.len() > 0 && tag@[0] == '<' && tag@ != "Bane"@,
            seq_prefix(start.state.piles@, new_sel.piles@),
            new_sel.initial_cards == start.state.initial_cards,
            new_sel.required_cards == start.state.required_cards,
            new_sel.notes@ == start.state.notes@,
            crate::constraints::tags_sub(start.state, new_sel),
            forall|idx: int|
                start.state.piles@.len() <= idx < new_sel.piles@.len()
                    ==> crate::constraints::spec_pile_tagged(
                    new_sel,
                    #[trigger] new_sel.piles@[idx],
                ),
            forall|i: int| 0 <= i < glist.len() ==> (#[trigger] glist[i]) < col.state.piles@.len(),
            glist.len() > 0,
            forall|i: int|
                0 <= i < glist.len() ==> col.state.piles@[(#[trigger] glist[i]) as int].card_group@
                    == group@,
            forall|i: int|
                0 <= i < col.state.piles@.len() && (#[trigger] col.state.piles@[i]).card_group@
                    == group@ ==> exists|j: int| 0 <= j < glist.len() && glist[j] == i as usize,
            forall|i: int|
                0 <= i < it.index && i < glist.len() ==> new_sel.piles@.contains(#[trigger] glist[i])
                    || col.state.piles@[glist[i] as int].spec_is_normal(),
        decreases it.list@.len() - it.index,
    {
        let ghost oi = it.index;
        let next = it.list[it.index];
        it.index = it.index + 1;
        proof {
            assert(next == glist[oi as int]);
            assert(next < col.state.piles@.len());
        }
        let ghost d0 = new_sel;
        let added = new_sel.add_pile(next, col);
        if added {
            let ghost d1 = new_sel;
            new_sel.tag_pile(next, tag.as_str());
            proof {
                lemma_add_pile_wf(d0, d1, *col, next);
                lemma_tag_wf(d1, new_sel, *col, next, tag@);
                crate::constraints::lemma_prefix_push(start.state.piles@, d0.piles@, next);
                assert(crate::constraints::tags_sub(start.state, new_sel)) by {
                    assert forall|q: usize, u: Seq<char>|
                        has_tag(start.state.tags@, q, u) implies has_tag(
                        new_sel.tags@,
                        q,
                        u,
                    ) by {
                        assert(has_tag(d1.tags@, q, u));
                    }
                }
                assert forall|idx: int|
                    start.state.piles@.len() <= idx < new_sel.piles@.len() implies
                    crate::constraints::spec_pile_tagged(
                    new_sel,
                    #[trigger] new_sel.piles@[idx],
                ) by {
                    if idx < d0.piles@.len() {
                        assert(new_sel.piles@[idx] == d0.piles@[idx]);
                        assert(crate::constraints::spec_pile_tagged(d0, d0.piles@[idx]));
                        let u = choose|u: Seq<char>| has_tag(d0.tags@, d0.piles@[idx], u);
                        assert(has_tag(new_sel.tags@, d0.piles@[idx], u));
                    } else {
                        assert(new_sel.piles@[idx] == next);
                        assert(has_tag(new_sel.tags@, next, tag@));
                    }
                }
                assert forall|i: int|
                    0 <= i < it.index && i < glist.len() implies new_sel.piles@.contains(
                    #[trigger] glist[i],
                ) || col.state.piles@[glist[i] as int].spec_is_normal() by {
                    if i < it.index - 1 {
                        if d0.piles@.contains(glist[i]) {
                            crate::selection::lemma_push_keeps_contains(d0.piles@, next, glist[i]);
                        }
                    } else {
                        assert(new_sel.piles@[d0.piles@.len() as int] == next);
                    }
                }
            }
        } else {
            proof {
                assert forall|i: int|
                    0 <= i < it.index && i < glist.len() implies new_sel.piles@.contains(
                    #[trigger] glist[i],
                ) || col.state.piles@[glist[i] as int].spec_is_normal() by {
                    if i == it.index - 1 {
                        // a pile that is not kingdom-and-supply is only ever
                        // refused because it is already present
                        assert(new_sel.piles@.contains(next) || col.state.piles@[next as int].spec_is_normal());
                    }
                }
            }
        }
    }
    let ghost d2 = new_sel;
    let mut note = String::new();
    note = note.concat("added");
    note = note.concat(group);
    new_sel.add_note(note.as_str());
    proof {
        assert(note@ =~= "added"@ + group@);
        assert(note@ != "hasBane"@) by {
            reveal_strlit("added");
            reveal_strlit("hasBane");
            assert(note@[0] == 'a');
        }
        assert forall|k: int|
            0 <= k < col.state.piles@.len() && !(#[trigger] col.state.piles@[k]).spec_is_normal()
                && note@ == "added"@ + col.state.piles@[k].card_group@ implies new_sel.piles@.contains(
            k as usize,
        ) by {
            assert(col.state.piles@[k].card_group@ == group@) by {
                assert("added"@ + col.state.piles@[k].card_group@ == "added"@ + group@);
                assert(col.state.piles@[k].card_group@ =~= ("added"@
                    + col.state.piles@[k].card_group@).subrange(
                    "added"@.len() as int,
                    ("added"@ + col.state.piles@[k].card_group@).len() as int,
                ));
                assert(group@ =~= ("added"@ + group@).subrange(
                    "added"@.len() as int,
                    ("added"@ + group@).len() as int,
                ));
            }
            vstd::std_specs::vec::axiom_spec_len(&col.state.piles);
            assert(k <= usize::MAX as int);
            assert(exists|j: int| 0 <= j < glist.len() && glist[j] == k as usize);
            let j = choose|j: int| 0 <= j < glist.len() && glist[j] == k as usize;
            assert(glist[j] as int == k);
            assert(!col.state.piles@[glist[j] as int].spec_is_normal());
            vstd::std_specs::vec::axiom_spec_len(&it.list);
            assert(it.index >= glist.len());
            assert(0 <= j && j < it.index as int);
            assert(d2.piles@.contains(glist[j]));
        }
        lemma_note_wf(d2, new_sel, *col, note@);
    }
    let ghost mid = new_sel.piles@;
    let ghost pre_build = new_sel;
    let res = col.build_selection(SelectionPtr::from_state(new_sel), cons, fuel - 1);
    match res {
        Ok(s) => {
            proof {
                crate::constraints::lemma_prefix_trans2(
                    start.state.piles@,
                    mid,
                    s.state.piles@,
                );
                crate::constraints::lemma_build_ok_chain(
                    s.state,
                    pre_build,
                    start.state,
                    cons@,
                    *col,
                );
                assert(s.state.spec_has_note("added"@ + group@)) by {
                    assert(pre_build.spec_has_note("added"@ + group@));
                }
                assert(col.state.piles@[glist[0] as int].card_group@ == group@);
                assert forall|q: int|
                    0 <= q < col.state.piles@.len() && (#[trigger] col.state.piles@[q]).card_group@
                        == group@ implies s.state.piles@.contains(q as usize)
                    || col.state.piles@[q].spec_is_normal() by {
                    vstd::std_specs::vec::axiom_spec_len(&col.state.piles);
                    let j = choose|j: int| 0 <= j < glist.len() && glist[j] == q as usize;
                    vstd::std_specs::vec::axiom_spec_len(&it.list);
                    assert(it.index >= glist.len());
                    if pre_build.piles@.contains(glist[j]) {
                        crate::constraints::lemma_prefix_contains(
                            mid,
                            s.state.piles@,
                            q as usize,
                        );
                    }
                }
            }
            Ok(s)
        },
        Err(e) => Err(e),
    }
}

/// Find the first `card(X)` interaction whose pile is absent, add that
/// pile, and recurse once.
fn apply_missing_dependency(
    start: &SelectionPtr,
    col: &CardColl,
    cons: &Vec<Constraint>,
    fuel: u64,
) -> (r: Result<SelectionPtr, String>)
    requires
        fuel >= 1,
        spec_piles_wf(col.state.piles@),
        start.state.wf(*col),
        cons_wf(cons@, *col),
    ensures
        r matches Ok(sel) ==> spec_build_ok(sel.state, start.state, cons@, *col),
        !spec_card_dep_missing(start.state, *col) ==> r is Err,
        r matches Ok(sel) ==> spec_card_dep_added(start.state, sel.state, *col),
    decreases fuel, 1int,
{
    let npiles = start.state.piles.len();
    let mut i: usize = 0;
    while i < npiles
        invariant
            0 <= i <= npiles,
            npiles == start.state.piles@.len(),
            spec_piles_wf(col.state.piles@),
            start.state.wf(*col),
            cons_wf(cons@, *col),
            fuel >= 1,
        decreases npiles - i,
    {
        let idx = start.state.piles[i];
        let pile = &col.state.piles[idx];
        let on = pile.other_interactions.len();
        let mut j: usize = 0;
        while j < on
            invariant
                0 <= j <= on,
                0 <= i < npiles,
                npiles == start.state.piles@.len(),
                spec_piles_wf(col.state.piles@),
                start.state.wf(*col),
                cons_wf(cons@, *col),
                fuel >= 1,
                idx == start.state.piles@[i as int],
                idx < col.state.piles@.len(),
                pile == &col.state.piles@[idx as int],
                on == pile.other_interactions@.len(),
            decreases on - j,
        {
            let it = &pile.other_interactions[j];
            if starts_with(it.as_str(), "card(") {
                let slen = it.as_str().unicode_len();
                proof {
                    reveal_strlit("card(");
                    assert(it@.subrange(0, 5) == "card("@);
                    assert(it@[4] == it@.subrange(0, 5)[4]);
                    assert(it@.contains('(')) by {
                        assert(it@[4] == '(');
                    }
                    assert(it@.len() > 0 && it@.last() == ')');
                    if slen == 5 {
                        assert(it@[4] == ')');
                    }
                    assert(slen >= 6);
                }
                let need_name = it.as_str().substring_char(5, slen - 1);
                match col.get_pile_for_card(need_name) {
                    None => {
                        let mut msg = String::new();
                        msg = msg.concat("Unable to find a pile containing ");
                        msg = msg.concat(need_name);
                        return Err(msg);
                    },
                    Some(k) => {
                        if !start.contains(k) {
                            let mut tag = String::new();
                            tag = tag.concat("<why?card:");
                            tag = tag.concat(pile.name.as_str());
                            tag = tag.concat(" interacts with it>");
                            proof {
                                reveal_strlit("<why?card:");
                                assert(tag@[0] == '<');
                            }
                            let res = try_candidate(start, k, tag.as_str(), col, cons, fuel);
                            proof {
                                let gi = i as int;
                                let gj = j as int;
                                let istr = col.state.piles@[start.state.piles@[gi] as int].other_interactions@[gj]@;
                                assert(istr == it@);
                                assert(need_name@ == istr.subrange(5, istr.len() - 1));
                                assert(spec_card_dep_missing(start.state, *col)) by {
                                    assert(crate::strutil::spec_starts_with(istr, "card("@));
                                    assert(!start.state.piles@.contains(k));
                                }
                                match &res {
                                    Ok(sel) => {
                                        assert(spec_card_dep_added(start.state, sel.state, *col))
                                            by {
                                            assert(sel.state.piles@.contains(k));
                                        }
                                    },
                                    Err(_) => {},
                                }
                            }
                            return res;
                        }
                    },
                }
            }
            j += 1;
        }
        i += 1;
    }
    Err(String::new())
}

/// For every `group(G)` interaction without its note, bring the group
/// in; recurse once after all of them.
fn apply_missing_dependency_group(
    start: &SelectionPtr,
    col: &CardColl,
    cons: &Vec<Constraint>,
    fuel: u64,
) -> (r: Result<SelectionPtr, String>)
    requires
        fuel >= 1,
        spec_piles_wf(col.state.piles@),
        start.state.wf(*col),
        cons_wf(cons@, *col),
    ensures
        r matches Ok(sel) ==> spec_build_ok(sel.state, start.state, cons@, *col),
        !crate::properties::spec_missing_interacting_group(start.state, *col) ==> r is Err,
        r matches Ok(sel) ==> spec_groups_noted(start.state.piles@, sel.state, *col),
    decreases fuel, 1int,
{
    let mut new_sel = start.duplicate_state();
    let mut acted = false;
    let npiles = start.state.piles.len();
    let mut i: usize = 0;
    while i < npiles
        invariant
            0 <= i <= npiles,
            npiles == start.state.piles@.len(),
            spec_piles_wf(col.state.piles@),
            start.state.wf(*col),
            cons_wf(cons@, *col),
            fuel >= 1,
            new_sel.wf(*col),
            seq_prefix(start.state.piles@, new_sel.piles@),
            new_sel.initial_cards == start.state.initial_cards,
            new_sel.required_cards == start.state.required_cards,
            crate::constraints::notes_sub(start.state, new_sel),
            crate::constraints::tags_sub(start.state, new_sel),
            forall|idx: int|
                start.state.piles@.len() <= idx < new_sel.piles@.len()
                    ==> crate::constraints::spec_pile_tagged(
                    new_sel,
                    #[trigger] new_sel.piles@[idx],
                ),
            acted ==> crate::properties::spec_missing_interacting_group(start.state, *col),
            spec_groups_noted(start.state.piles@.subrange(0, i as int), new_sel, *col),
        decreases npiles - i,
    {
        let idx = start.state.piles[i];
        let pile = &col.state.piles[idx];
        let on = pile.other_interactions.len();
        let mut j: usize = 0;
        while j < on
            invariant
                0 <= j <= on,
                0 <= i < npiles,
                npiles == start.state.piles@.len(),
                spec_piles_wf(col.state.piles@),
                start.state.wf(*col),
                cons_wf(cons@, *col),
                fuel >= 1,
                idx == start.state.piles@[i as int],
                idx < col.state.piles@.len(),
                pile == &col.state.piles@[idx as int],
                on == pile.other_interactions@.len(),
                new_sel.wf(*col),
                seq_prefix(start.state.piles@, new_sel.piles@),
                new_sel.initial_cards == start.state.initial_cards,
                new_sel.required_cards == start.state.required_cards,
                crate::constraints::notes_sub(start.state, new_sel),
                crate::constraints::tags_sub(start.state, new_sel),
                forall|idx: int|
                    start.state.piles@.len() <= idx < new_sel.piles@.len()
                        ==> crate::constraints::spec_pile_tagged(
                        new_sel,
                        #[trigger] new_sel.piles@[idx],
                    ),
                acted ==> crate::properties::spec_missing_interacting_group(start.state, *col),
                spec_groups_noted(start.state.piles@.subrange(0, i as int), new_sel, *col),
                forall|j2: int|
                    {
                        let istr = (#[trigger] col.state.piles@[idx as int].other_interactions@[j2])@;
                        (0 <= j2 < j as int && crate::strutil::spec_starts_with(istr, "group("@))
                            ==> new_sel.spec_has_note("added"@ + istr.subrange(6, istr.len() - 1))
                    },
            decreases on - j,
        {
            let it = &pile.other_interactions[j];
            if starts_with(it.as_str(), "group(") {
                let slen = it.as_str().unicode_len();
                proof {
                    reveal_strlit("group(");
                    assert(it@.subrange(0, 6) == "group("@);
                    assert(it@[5] == it@.subrange(0, 6)[5]);
                    assert(it@.contains('(')) by {
                        assert(it@[5] == '(');
                    }
                    assert(it@.len() > 0 && it@.last() == ')');
                    if slen == 6 {
                        assert(it@[5] == ')');
                    }
                    assert(slen >= 7);
                }
                let need_name = it.as_str().substring_char(6, slen - 1);
                let mut note = String::new();
                note = note.concat("added");
                note = note.concat(need_name);
                proof {
                    assert(note@ =~= "added"@ + need_name@);
                    assert(need_name@ == it@.subrange(6, it@.len() - 1));
                }
                if !start.has_note(note.as_str()) {
                    let ghost before = new_sel;
                    proof {
                        assert(crate::properties::spec_missing_interacting_group(
                            start.state,
                            *col,
                        )) by {
                            assert(crate::properties::pile_has_group_gap(
                                crate::properties::sel_pile_at(start.state, *col, i as int),
                                start.state.notes@,
                            )) by {
                                assert(crate::strutil::spec_starts_with(it@, "group("@));
                            }
                        }
                    }
                    match group_into(&mut new_sel, need_name, pile.name.as_str(), col) {
                        Ok(_) => {
                            acted = true;
                            proof {
                                crate::constraints::lemma_notes_sub_trans(
                                    start.state,
                                    before,
                                    new_sel,
                                );
                                crate::constraints::lemma_tags_sub_trans(
                                    start.state,
                                    before,
                                    new_sel,
                                );
                                crate::constraints::lemma_added_tagged_chain(
                                    start.state.piles@.len() as int,
                                    before,
                                    new_sel,
                                );
                                assert(new_sel.spec_has_note("added"@ + need_name@));
                            }
                        },
                        Err(e) => {
                            return Err(e);
                        },
                    }
                } else {
                    proof {
                        assert(new_sel.spec_has_note("added"@ + need_name@)) by {
                            assert(start.state.spec_has_note(note@));
                        }
                    }
                }
            }
            proof {
                let gj = j as int;
                assert forall|j2: int|
                    {
                        let istr = (#[trigger] col.state.piles@[idx as int].other_interactions@[j2])@;
                        (0 <= j2 < gj + 1 && crate::strutil::spec_starts_with(istr, "group("@))
                            ==> new_sel.spec_has_note("added"@ + istr.subrange(6, istr.len() - 1))
                    } by {}
            }
            j += 1;
        }
        proof {
            let gi = i as int;
            assert forall|i2: int, j2: int|
                {
                    let istr = (#[trigger] col.state.piles@[start.state.piles@.subrange(
                        0,
                        gi + 1,
                    )[i2] as int].other_interactions@[j2])@;
                    (0 <= i2 < gi + 1 && 0 <= j2 < col.state.piles@[start.state.piles@.subrange(
                        0,
                        gi + 1,
                    )[i2] as int].other_interactions@.len() && crate::strutil::spec_starts_with(
                        istr,
                        "group("@,
                    )) ==> new_sel.spec_has_note("added"@ + istr.subrange(6, istr.len() - 1))
                } by {
                if 0 <= i2 < gi + 1 {
                    assert(start.state.piles@.subrange(0, gi + 1)[i2]
                        == start.state.piles@[i2]);
                    if i2 < gi {
                        assert(start.state.piles@.subrange(0, gi)[i2]
                            == start.state.piles@[i2]);
                    } else {
                        assert(start.state.piles@[i2] == idx);
                    }
                }
            }
            assert(spec_groups_noted(
                start.state.piles@.subrange(0, gi + 1),
                new_sel,
                *col,
            ));
        }
        i += 1;
    }
    if !acted {
        let mut msg = String::new();
        msg = msg.concat("Nothing seems to be missing");
        return Err(msg);
    }
    proof {
        assert(start.state.piles@.subrange(0, npiles as int) =~= start.state.piles@);
    }
    let ghost pre_build = new_sel;
    let res = col.build_selection(SelectionPtr::from_state(new_sel), cons, fuel - 1);
    match res {
        Ok(s) => {
            proof {
                crate::constraints::lemma_build_ok_chain(
                    s.state,
                    pre_build,
                    start.state,
                    cons@,
                    *col,
                );
                assert forall|i2: int, j2: int|
                    {
                        let istr = (#[trigger] col.state.piles@[start.state.piles@[i2] as int].other_interactions@[j2])@;
                        (0 <= i2 < start.state.piles@.len() && 0 <= j2
                            < col.state.piles@[start.state.piles@[i2] as int].other_interactions@.len()
                            && crate::strutil::spec_starts_with(istr, "group("@))
                            ==> s.state.spec_has_note("added"@ + istr.subrange(6, istr.len() - 1))
                    } by {
                    if 0 <= i2 < start.state.piles@.len() && 0 <= j2
                        < col.state.piles@[start.state.piles@[i2] as int].other_interactions@.len() {
                        let istr = col.state.piles@[start.state.piles@[i2] as int].other_interactions@[j2]@;
                        if crate::strutil::spec_starts_with(istr, "group("@) {
                            assert(pre_build.spec_has_note(
                                "added"@ + istr.subrange(6, istr.len() - 1),
                            ));
                        }
                    }
                }
                assert(spec_groups_noted(start.state.piles@, s.state, *col));
            }
            Ok(s)
        },
        Err(e) => Err(e),
    }
}

/// Add every pile of a named group to the draft in place, tagging each
/// arrival, and record the group's note; an addition that is refused for
/// room is an error here.
fn group_into(new_sel: &mut SelectionState, group: &str, blame: &str, col: &CardColl) -> (r: Result<
    bool,
    String,
>)
    requires
        spec_piles_wf(col.state.piles@),
        old(new_sel).wf(*col),
    ensures
        final(new_sel).wf(*col),
        seq_prefix(old(new_sel).piles@, final(new_sel).piles@),
        final(new_sel).initial_cards == old(new_sel).initial_cards,
        final(new_sel).required_cards == old(new_sel).required_cards,
        crate::constraints::notes_sub(*old(new_sel), *final(new_sel)),
        r is Ok ==> final(new_sel).spec_has_note("added"@ + group@),
        r is Ok ==> (exists|q: int|
            0 <= q < col.state.piles@.len() && (#[trigger] col.state.piles@[q]).card_group@
                == group@),
        r is Ok ==> (forall|q: int|
            0 <= q < col.state.piles@.len() && (#[trigger] col.state.piles@[q]).card_group@
                == group@ ==> final(new_sel).piles@.contains(q as usize)),
        crate::constraints::tags_sub(*old(new_sel), *final(new_sel)),
        forall|idx: int|
            old(new_sel).piles@.len() <= idx < final(new_sel).piles@.len()
                ==> crate::constraints::spec_pile_tagged(
                *final(new_sel),
                #[trigger] final(new_sel).piles@[idx],
            ),
{
    let p = CardGroupProperty::make_ptr(group);
    let begin = match col.get_iterators(&p) {
        Some(v) => v,
        None => {
            let mut msg = String::new();
            msg = msg.concat("Unable to find required group named ");
            msg = msg.concat(group);
            return Err(msg);
        },
    };
    let mut tag = String::new();
    tag = tag.concat("<why?cards:");
    tag = tag.concat(blame);
    tag = tag.concat(" needs it>");
    proof {
        reveal_strlit("<why?cards:");
        assert(tag@[0] == '<');
        lemma_not_bane(tag@);
    }
    let mut it = begin;
    let ghost glist = it.list@;
    proof {
        assert forall|i: int|
            0 <= i < col.state.piles@.len() && (#[trigger] col.state.piles@[i]).card_group@
                == group@ implies exists|j: int| 0 <= j < glist.len() && glist[j] == i as usize by {
            assert(spec_pile_meets(p, col.state.piles@[i]));
        }
        assert forall|i: int|
            0 <= i < glist.len() implies col.state.piles@[(#[trigger] glist[i]) as int].card_group@
                == group@ by {
            assert(spec_pile_meets(p, col.state.piles@[glist[i] as int]));
        }
    }
    while it.index < it.list.len()
        invariant
            it.list@ == glist,
            spec_piles_wf(col.state.piles@),
            new_sel.wf(*col),
            tag@.len() > 0 && tag@[0] == '<' && tag@ != "Bane"@,
            seq_prefix(old(new_sel).piles@, new_sel.piles@),
            new_sel.initial_cards == old(new_sel).initial_cards,
            new_sel.required_cards == old(new_sel).required_cards,
            new_sel.notes@ == old(new_sel).notes@,
            crate::constraints::tags_sub(*old(new_sel), *new_sel),
            forall|idx: int|
                old(new_sel).piles@.len() <= idx < new_sel.piles@.len()
                    ==> crate::constraints::spec_pile_tagged(
                    *new_sel,
                    #[trigger] new_sel.piles@[idx],
                ),
            forall|i: int| 0 <= i < glist.len() ==> (#[trigger] glist[i]) < col.state.piles@.len(),
            glist.len() > 0,
            forall|i: int|
                0 <= i < glist.len() ==> col.state.piles@[(#[trigger] glist[i]) as int].card_group@
                    == group@,
            forall|i: int|
                0 <= i < col.state.piles@.len() && (#[trigger] col.state.piles@[i]).card_group@
                    == group@ ==> exists|j: int| 0 <= j < glist.len() && glist[j] == i as usize,
            forall|i: int|
                0 <= i < it.index && i < glist.len() ==> new_sel.piles@.contains(#[trigger] glist[i]),
        decreases it.list@.len() - it.index,
    {
        let ghost oi = it.index;
        let next = it.list[it.index];
        it.index = it.index + 1;
        proof {
            assert(next == glist[oi as int]);
            assert(next < col.state.piles@.len());
        }
        let contained = new_sel.contains(next);
        let ghost d0 = *new_sel;
        let added = new_sel.add_pile(next, col);
        if added {
            let ghost d1 = *new_sel;
            new_sel.tag_pile(next, tag.as_str());
            proof {
                lemma_add_pile_wf(d0, d1, *col, next);
                lemma_tag_wf(d1, *new_sel, *col, next, tag@);
                crate::constraints::lemma_prefix_push(old(new_sel).piles@, d0.piles@, next);
                assert(crate::constraints::tags_sub(*old(new_sel), *new_sel)) by {
                    assert forall|q: usize, u: Seq<char>|
                        has_tag(old(new_sel).tags@, q, u) implies has_tag(
                        new_sel.tags@,
                        q,
                        u,
                    ) by {
                        assert(has_tag(d1.tags@, q, u));
                    }
                }
                assert forall|idx: int|
                    old(new_sel).piles@.len() <= idx < new_sel.piles@.len() implies
                    crate::constraints::spec_pile_tagged(
                    *new_sel,
                    #[trigger] new_sel.piles@[idx],
                ) by {
                    if idx < d0.piles@.len() {
                        assert(new_sel.piles@[idx] == d0.piles@[idx]);
                        assert(crate::constraints::spec_pile_tagged(d0, d0.piles@[idx]));
                        let u = choose|u: Seq<char>| has_tag(d0.tags@, d0.piles@[idx], u);
                        assert(has_tag(new_sel.tags@, d0.piles@[idx], u));
                    } else {
                        assert(new_sel.piles@[idx] == next);
                        assert(has_tag(new_sel.tags@, next, tag@));
                    }
                }
                assert forall|i: int|
                    0 <= i < it.index && i < glist.len() implies new_sel.piles@.contains(
                    #[trigger] glist[i],
                ) by {
                    if i < it.index - 1 {
                        assert(d0.piles@.contains(glist[i]));
                        crate::selection::lemma_push_keeps_contains(d0.piles@, next, glist[i]);
                    } else {
                        assert(new_sel.piles@[d0.piles@.len() as int] == next);
                    }
                }
            }
        } else {
            if !contained {
                let mut msg = String::new();
                msg = msg.concat("Unable to add card ");
                msg = msg.concat(col.state.piles[next].name.as_str());
                return Err(msg);
            }
            proof {
                assert forall|i: int|
                    0 <= i < it.index && i < glist.len() implies new_sel.piles@.contains(
                    #[trigger] glist[i],
                ) by {
                    if i == it.index - 1 {
                        assert(new_sel.piles@.contains(next));
                    }
                }
            }
        }
    }
    let ghost d2 = *new_sel;
    let mut note = String::new();
    note = note.concat("added");
    note = note.concat(group);
    new_sel.add_note(note.as_str());
    proof {
        assert(note@ =~= "added"@ + group@);
        assert(note@ != "hasBane"@) by {
            reveal_strlit("added");
            reveal_strlit("hasBane");
            assert(note@[0] == 'a');
        }
        assert forall|k: int|
            0 <= k < col.state.piles@.len() && !(#[trigger] col.state.piles@[k]).spec_is_normal()
                && note@ == "added"@ + col.state.piles@[k].card_group@ implies new_sel.piles@.contains(
            k as usize,
        ) by {
            assert(col.state.piles@[k].card_group@ == group@) by {
                assert("added"@ + col.state.piles@[k].card_group@ == "added"@ + group@);
                assert(col.state.piles@[k].card_group@ =~= ("added"@
                    + col.state.piles@[k].card_group@).subrange(
                    "added"@.len() as int,
                    ("added"@ + col.state.piles@[k].card_group@).len() as int,
                ));
                assert(group@ =~= ("added"@ + group@).subrange(
                    "added"@.len() as int,
                    ("added"@ + group@).len() as int,
                ));
            }
            vstd::std_specs::vec::axiom_spec_len(&col.state.piles);
            assert(k <= usize::MAX as int);
            assert(exists|j: int| 0 <= j < glist.len() && glist[j] == k as usize);
            let j = choose|j: int| 0 <= j < glist.len() && glist[j] == k as usize;
            assert(glist[j] as int == k);
            assert(!col.state.piles@[glist[j] as int].spec_is_normal());
            vstd::std_specs::vec::axiom_spec_len(&it.list);
            assert(it.index >= glist.len());
            assert(0 <= j && j < it.index as int);
            assert(d2.piles@.contains(glist[j]));
        }
        lemma_note_wf(d2, *new_sel, *col, note@);
        assert(crate::constraints::notes_sub(*old(new_sel), *new_sel)) by {
            assert(d2.notes@ == old(new_sel).notes@);
        }
        assert(new_sel.spec_has_note("added"@ + group@));
        assert(col.state.piles@[glist[0] as int].card_group@ == group@);
        assert forall|q: int|
            0 <= q < col.state.piles@.len() && (#[trigger] col.state.piles@[q]).card_group@
                == group@ implies new_sel.piles@.contains(q as usize) by {
            vstd::std_specs::vec::axiom_spec_len(&col.state.piles);
            let j = choose|j: int| 0 <= j < glist.len() && glist[j] == q as usize;
            vstd::std_specs::vec::axiom_spec_len(&it.list);
            assert(it.index >= glist.len());
            assert(d2.piles@.contains(glist[j]));
        }
    }
    Ok(true)
}

/// Ensure Platinum and Colony are both in the draft; recurse once.
fn apply_prosperity(
    label: &str,
    start: &SelectionPtr,
    col: &CardColl,
    cons: &Vec<Constraint>,
    fuel: u64,
) -> (r: Result<SelectionPtr, String>)
    requires
        fuel >= 1,
        spec_piles_wf(col.state.piles@),
        start.state.wf(*col),
        cons_wf(cons@, *col),
        label@ != "Bane"@,
    ensures
        r matches Ok(sel) ==> spec_build_ok(sel.state, start.state, cons@, *col),
        r matches Ok(sel) ==> {
            &&& (crate::collection::spec_pile_for_card(*col, "Platinum"@) matches Some(pi)
                ==> sel.state.piles@.contains(pi as usize))
            &&& (crate::collection::spec_pile_for_card(*col, "Colony"@) matches Some(ci)
                ==> sel.state.piles@.contains(ci as usize))
        },
        (crate::collection::spec_pile_for_card(*col, "Platinum"@) is None
            || crate::collection::spec_pile_for_card(*col, "Colony"@) is None) ==> r is Err,
    decreases fuel, 1int,
{
    let mut new_sel = start.duplicate_state();
    let platinum = match col.get_pile_for_card("Platinum") {
        Some(m) => m,
        None => {
            let mut msg = String::new();
            msg = msg.concat("Can't find prosperity base cards");
            return Err(msg);
        },
    };
    let colony = match col.get_pile_for_card("Colony") {
        Some(m) => m,
        None => {
            let mut msg = String::new();
            msg = msg.concat("Can't find prosperity base cards");
            return Err(msg);
        },
    };
    // the label is used as the whole tag here; the reserved bane word is
    // kept out by the builder's precondition
    if !new_sel.contains(platinum) {
        let ghost d0 = new_sel;
        if !new_sel.add_pile(platinum, col) {
            let mut msg = String::new();
            msg = msg.concat("Error adding Platinum");
            return Err(msg);
        }
        let ghost d1 = new_sel;
        new_sel.tag_pile(platinum, label);
        proof {
            lemma_add_pile_wf(d0, d1, *col, platinum);
            lemma_tag_wf(d1, new_sel, *col, platinum, label@);
            crate::constraints::lemma_prefix_push(start.state.piles@, d0.piles@, platinum);
        }
    }
    proof {
        assert(new_sel.piles@.contains(platinum));
    }
    let ghost after_plat = new_sel.piles@;
    if !new_sel.contains(colony) {
        let ghost d0 = new_sel;
        if !new_sel.add_pile(colony, col) {
            let mut msg = String::new();
            msg = msg.concat("Error adding Colony");
            return Err(msg);
        }
        let ghost d1 = new_sel;
        new_sel.tag_pile(colony, label);
        proof {
            lemma_add_pile_wf(d0, d1, *col, colony);
            lemma_tag_wf(d1, new_sel, *col, colony, label@);
            crate::constraints::lemma_prefix_push(start.state.piles@, d0.piles@, colony);
            crate::selection::lemma_push_keeps_contains(after_plat, colony, platinum);
        }
    }
    let ghost mid = new_sel.piles@;
    let ghost pre_build = new_sel;
    proof {
        assert(crate::constraints::tags_sub(start.state, new_sel)) by {
            assert forall|q: usize, u: Seq<char>|
                has_tag(start.state.tags@, q, u) implies has_tag(new_sel.tags@, q, u) by {}
        }
        assert forall|idx: int|
            start.state.piles@.len() <= idx < new_sel.piles@.len() implies
            crate::constraints::spec_pile_tagged(new_sel, #[trigger] new_sel.piles@[idx]) by {
            assert(new_sel.piles@[idx] == platinum || new_sel.piles@[idx] == colony);
            if new_sel.piles@[idx] == platinum {
                assert(has_tag(new_sel.tags@, platinum, label@));
            } else {
                assert(has_tag(new_sel.tags@, colony, label@));
            }
        }
        crate::constraints::lemma_notes_sub_eq(start.state, new_sel);
    }
    let res = col.build_selection(SelectionPtr::from_state(new_sel), cons, fuel - 1);
    match res {
        Ok(s) => {
            proof {
                crate::constraints::lemma_prefix_trans2(start.state.piles@, mid, s.state.piles@);
                assert(new_sel.piles@.contains(platinum));
                assert(new_sel.piles@.contains(colony));
                crate::constraints::lemma_prefix_contains(mid, s.state.piles@, platinum);
                crate::constraints::lemma_prefix_contains(mid, s.state.piles@, colony);
                crate::constraints::lemma_build_ok_chain(
                    s.state,
                    pre_build,
                    start.state,
                    cons@,
                    *col,
                );
            }
            Ok(s)
        },
        Err(e) => Err(e),
    }
}

} // verus!
