//! The run's configuration: the parsed command line, the pile set it
//! allows, and the constraints it asks the builder to honour.

use vstd::prelude::*;

use crate::actions::{
    AddGroup, AddMissingDependency, AddMissingDependencyGroup, AddProsperity, FindBane, FindPile,
};
use crate::bad_rand::{get_rand_stream, BadRand};
use crate::cards::load_cards;
use crate::collection::{spec_piles_wf, CardColl};
use crate::constraints::{cons_wf, constraint_wf, Constraint, ConstraintPtr};
use crate::costs::{Cost, CostSet};
use crate::piles::Pile;
use crate::properties::{
    CardGroupProperty, CostAndTypeProperty, EitherProperty, FailProperty, HangingInteractsWith,
    KeywordProperty, MissingGroupForKeywordProperty, MissingInteractingCardGroupProperty,
    MissingInteractingCardProperty, MissingPotionProperty, NameProperty, NeedProsperity,
    NoteProperty, OtherInteractionProperty, PropertyPtr, RepeatedCostProperty, TypeProperty,
};
use crate::selection::lemma_not_bane;
use crate::strutil::{str_eq, string_split, u64_to_string};

verus! {

/// The recognised command-line options, as plain values.
pub struct Cli {
    pub seed: Option<u64>,
    pub badrand: bool,
    pub boxes: Vec<String>,
    pub groups: Vec<String>,
    pub boxfile: Option<String>,
    pub cardfile: Option<String>,
    pub list: bool,
    pub landscape_count: Option<u8>,
    pub why: bool,
    pub no_validate: bool,
    pub exclude: Vec<String>,
    pub included: Vec<String>,
    pub info: bool,
    pub no_attack_react: bool,
    pub no_anti_cursor: bool,
    pub max_cost_repeat: u8,
    pub min_type: Vec<String>,
    pub max_type: Vec<String>,
    pub max_prefixes: u8,
}

/// Everything the engine needs for a run.
pub struct Config {
    pub rand: BadRand,
    pub why: bool,
    pub more_info: bool,
    pub optional_extras: u8,
    pub validate: bool,
    pub list_collection: bool,
    pub disable_anti_cursors: bool,
    pub disable_attack_react: bool,
    pub max_cost_repeat: u8,
    pub min_types: Vec<(String, u8)>,
    pub max_types: Vec<(String, u8)>,
    pub piles: Vec<Pile>,
    pub includes: Vec<String>,
}

/// The bane constraint: with Young Witch present, demand the `hasBane`
/// note; its fix adjoins a bane pile. Where no pile can be a bane, the
/// constraint is the unsatisfiable one.
pub open spec fn spec_bane_shape(c: Constraint) -> bool {
    ||| {
        &&& c.precondition matches Some(p) && (p matches PropertyPtr::Name(n) && n.name@
            == "Young Witch"@)
        &&& c.property matches PropertyPtr::Note(t) && t.text@ == "hasBane"@
        &&& c.prop_active == 1
        &&& c.prop_satisfied == 1
        &&& c.prop_inactive == 1
        &&& c.prop_broken == crate::MANY
    }
    ||| (c.property matches PropertyPtr::Fail(_) && c.prop_broken == 0 && c.precondition is None)
}

/// The Prosperity-base constraint: five Prosperity piles demand the
/// `addedProsperity-base` note.
pub open spec fn spec_prosp_shape(c: Constraint) -> bool {
    &&& c.precondition matches Some(p) && (p matches PropertyPtr::CardGroup(g) && g.group_name@
        == "Prosperity"@)
    &&& c.property matches PropertyPtr::Note(t) && t.text@ == "addedProsperity-base"@
    &&& c.prop_active == 5
    &&& c.prop_satisfied == 1
    &&& c.prop_inactive == 1
    &&& c.prop_broken == crate::MANY
}

/// The Potion constraint: a potion cost without the Potion pile demands
/// its fix, behind an always-failing main property.
pub open spec fn spec_potion_shape(c: Constraint) -> bool {
    &&& c.precondition matches Some(p) && (p matches PropertyPtr::MissingPotion(_))
    &&& c.property matches PropertyPtr::Fail(_)
    &&& c.prop_active == 1
    &&& c.prop_satisfied == crate::MANY
    &&& c.prop_inactive == crate::MANY
    &&& c.prop_broken == crate::MANY
}

pub open spec fn spec_igroup_shape(c: Constraint) -> bool {
    &&& c.precondition matches Some(p) && (p matches PropertyPtr::MissingInteractingCardGroup(_))
    &&& c.property matches PropertyPtr::Fail(_)
    &&& c.prop_active == 1
    &&& c.prop_satisfied == crate::MANY
    &&& c.prop_inactive == crate::MANY
    &&& c.prop_broken == crate::MANY
}

pub open spec fn spec_icard_shape(c: Constraint) -> bool {
    &&& c.precondition matches Some(p) && (p matches PropertyPtr::MissingInteractingCard(_))
    &&& c.property matches PropertyPtr::Fail(_)
    &&& c.prop_active == 1
    &&& c.prop_satisfied == crate::MANY
    &&& c.prop_inactive == crate::MANY
    &&& c.prop_broken == crate::MANY
}

/// The repeated-cost constraint: any cost repeated beyond the limit
/// breaks the draft outright.
pub open spec fn spec_repeat_shape(c: Constraint, max: u64) -> bool {
    &&& c.property matches PropertyPtr::RepeatedCost(r) && r.max_repeats == max
    &&& c.precondition is None
    &&& c.prop_inactive == 0
    &&& c.prop_broken == 1
}

/// A minimum-type constraint: fewer matching piles than `n` demand the
/// pile-finding fix.
pub open spec fn spec_min_shape(c: Constraint, t: Seq<char>, n: u8) -> bool {
    &&& c.property matches PropertyPtr::Type(tp) && tp.card_type@ == t && !tp.kingdom_and_supply
    &&& c.precondition is None
    &&& c.prop_satisfied == n as u64
    &&& c.prop_inactive == n as u64
    &&& c.prop_broken == crate::MANY + 1
}

/// A maximum-type constraint: more matching piles than `n` break the
/// draft.
pub open spec fn spec_max_shape(c: Constraint, t: Seq<char>, n: u8) -> bool {
    &&& c.property matches PropertyPtr::Type(tp) && tp.card_type@ == t && !tp.kingdom_and_supply
    &&& c.precondition is None
    &&& c.prop_broken == n as u64 + 1
}

/// What `build_constraints` promises of its result.
pub open spec fn spec_cons_ok(cons: Seq<Constraint>, col: CardColl, max_repeat: u8) -> bool {
    &&& cons_wf(cons, col)
    &&& spec_base_constraints(cons)
    &&& (max_repeat > 0 ==> exists|k: int|
        0 <= k < cons.len() && spec_repeat_shape(#[trigger] cons[k], max_repeat as u64))
}

/// Some kingdom-and-supply pile of the catalog carries this type.
pub open spec fn spec_type_available(col: CardColl, t: Seq<char>) -> bool {
    exists|i: int|
        0 <= i < col.state.piles@.len() && (#[trigger] col.state.piles@[i]).kingdom
            && col.state.piles@[i].supply && col.state.piles@[i].spec_has_type(t)
}

/// Some pile of the catalog carries this type at all.
pub open spec fn spec_any_pile_of_type(col: CardColl, t: Seq<char>) -> bool {
    exists|i: int|
        0 <= i < col.state.piles@.len() && (#[trigger] col.state.piles@[i]).spec_has_type(t)
}

/// The list holds a minimum-type constraint for this type and count.
pub open spec fn spec_has_min_cons(cons: Seq<Constraint>, t: Seq<char>, n: u8) -> bool {
    exists|k: int| 0 <= k < cons.len() && spec_min_shape(#[trigger] cons[k], t, n)
}

/// The list holds a maximum-type constraint for this type and count.
pub open spec fn spec_has_max_cons(cons: Seq<Constraint>, t: Seq<char>, n: u8) -> bool {
    exists|k: int| 0 <= k < cons.len() && spec_max_shape(#[trigger] cons[k], t, n)
}

/// Minimum-type promises survive appending more constraints.
proof fn lemma_mins_persist(
    pre: Seq<Constraint>,
    post: Seq<Constraint>,
    mins: Seq<(String, u8)>,
    upto: int,
)
    requires
        pre.len() <= post.len(),
        forall|k: int| 0 <= k < pre.len() ==> post[k] == pre[k],
        forall|m: int|
            0 <= m < upto ==> spec_has_min_cons(pre, (#[trigger] mins[m]).0@, mins[m].1),
    ensures
        forall|m: int|
            0 <= m < upto ==> spec_has_min_cons(post, (#[trigger] mins[m]).0@, mins[m].1),
{
    assert forall|m: int| 0 <= m < upto implies spec_has_min_cons(
        post,
        (#[trigger] mins[m]).0@,
        mins[m].1,
    ) by {
        let k = choose|k: int|
            0 <= k < pre.len() && spec_min_shape(#[trigger] pre[k], mins[m].0@, mins[m].1);
        assert(post[k] == pre[k]);
        assert(spec_min_shape(post[k], mins[m].0@, mins[m].1));
    }
}

/// Maximum-type promises survive appending more constraints.
proof fn lemma_maxs_persist(
    pre: Seq<Constraint>,
    post: Seq<Constraint>,
    maxs: Seq<(String, u8)>,
    upto: int,
    col: CardColl,
)
    requires
        pre.len() <= post.len(),
        forall|k: int| 0 <= k < pre.len() ==> post[k] == pre[k],
        forall|m: int|
            0 <= m < upto ==> spec_has_max_cons(pre, (#[trigger] maxs[m]).0@, maxs[m].1)
                || !spec_any_pile_of_type(col, maxs[m].0@),
    ensures
        forall|m: int|
            0 <= m < upto ==> spec_has_max_cons(post, (#[trigger] maxs[m]).0@, maxs[m].1)
                || !spec_any_pile_of_type(col, maxs[m].0@),
{
    assert forall|m: int| 0 <= m < upto implies spec_has_max_cons(
        post,
        (#[trigger] maxs[m]).0@,
        maxs[m].1,
    ) || !spec_any_pile_of_type(col, maxs[m].0@) by {
        if spec_has_max_cons(pre, maxs[m].0@, maxs[m].1) {
            let k = choose|k: int|
                0 <= k < pre.len() && spec_max_shape(#[trigger] pre[k], maxs[m].0@, maxs[m].1);
            assert(post[k] == pre[k]);
            assert(spec_max_shape(post[k], maxs[m].0@, maxs[m].1));
        }
    }
}

/// The engine's own constraints stand first, in a fixed order.
pub open spec fn spec_base_constraints(cons: Seq<Constraint>) -> bool {
    &&& cons.len() >= 6
    &&& spec_bane_shape(cons[0])
    &&& spec_prosp_shape(cons[1])
    &&& spec_potion_shape(cons[2])
    &&& spec_igroup_shape(cons[4])
    &&& spec_icard_shape(cons[5])
}

/// The bane constraint over this catalog.
pub fn bane_constraint(col: &CardColl) -> (r: ConstraintPtr)
    requires
        spec_piles_wf(col.state.piles@),
    ensures
        constraint_wf(r, *col),
        spec_bane_shape(r),
{
    let has_yw = NameProperty::make_ptr("Young Witch");
    let mut cs = CostSet::new();
    cs.insert(Cost::new_s(2));
    cs.insert(Cost::new_s(3));
    let ghost csv = cs@;
    let bane_cost = CostAndTypeProperty::make_ptr_set(String::new().concat("Action"), cs);
    let begin = match col.get_iterators(&bane_cost) {
        None => {
            let c = Constraint::unsatisfiable("Failed bane constraint");
            proof {
                reveal_strlit("Failed bane constraint");
                lemma_not_bane("Failed bane constraint"@);
            }
            return c;
        },
        Some(v) => v,
    };
    proof {
        assert forall|i: int|
            0 <= i < begin.list@.len() implies (#[trigger] begin.list@[i])
                < col.state.piles@.len()
                && crate::selection::SelectionState::spec_bane_pile(
                col.state.piles@[begin.list@[i] as int],
            ) by {
            let pile = col.state.piles@[begin.list@[i] as int];
            assert(crate::properties::spec_pile_meets(bane_cost, pile));
            assert(pile.spec_has_type("Action"@)) by {
                reveal_strlit("Action");
            }
            let c = choose|c: Cost| pile.costs@.contains(c) && csv.contains(c);
            assert(csv.len() == 2);
            assert(c == csv[0] || c == csv[1]);
        }
    }
    let fix = FindBane::make_ptr(col, &begin);
    let has_bane = NoteProperty::make_ptr("hasBane");
    let label = String::new().concat("bane");
    let r = Constraint::make_ptr_full(
        label,
        Some(has_yw),
        has_bane,
        Some(fix),
        1,
        1,
        1,
        crate::MANY,
    );
    proof {
        reveal_strlit("bane");
        lemma_not_bane("bane"@);
    }
    r
}

/// The Prosperity-base constraint over this catalog.
pub fn prosp_constraint(col: &CardColl) -> (r: ConstraintPtr)
    ensures
        constraint_wf(r, *col),
        spec_prosp_shape(r),
{
    let group_pros = CardGroupProperty::make_ptr("Prosperity");
    let has_pros_base = NoteProperty::make_ptr("addedProsperity-base");
    let fix = AddGroup::make_ptr(col, "Prosperity-base");
    let label = String::new().concat("prospBasics");
    let r = Constraint::make_ptr_full(
        label,
        Some(group_pros),
        has_pros_base,
        Some(fix),
        5,
        1,
        1,
        crate::MANY,
    );
    proof {
        reveal_strlit("prospBasics");
        lemma_not_bane("prospBasics"@);
    }
    r
}

/// The anti-curser constraint, where any trashing pile exists.
pub fn curser_constraint(col: &CardColl, threshold: u64) -> (r: Option<ConstraintPtr>)
    ensures
        r matches Some(c) ==> constraint_wf(c, *col),
{
    let curser = KeywordProperty::make_ptr("curser", false);
    let trash = KeywordProperty::make_ptr("trash_any", true);
    let begin = match col.get_iterators(&trash) {
        Some(v) => v,
        None => {
            return None;
        },
    };
    let fix = FindPile::make_ptr(col, &begin);
    let label = String::new().concat("counterCurser");
    let r = Constraint::make_ptr_full(
        label,
        Some(curser),
        trash,
        Some(fix),
        threshold,
        1,
        1,
        crate::MANY,
    );
    proof {
        reveal_strlit("counterCurser");
        lemma_not_bane("counterCurser"@);
    }
    Some(r)
}

/// The attack-reaction constraint, where any reaction pile exists.
pub fn attack_react_constraint(col: &CardColl, threshold: u64) -> (r: Option<ConstraintPtr>)
    ensures
        r matches Some(c) ==> constraint_wf(c, *col),
{
    let attack = TypeProperty::make_ptr("Attack", true);
    let react = OtherInteractionProperty::make_ptr("react(Attack)", true);
    let begin = match col.get_iterators(&react) {
        Some(v) => v,
        None => {
            return None;
        },
    };
    let fix = FindPile::make_ptr(col, &begin);
    let label = String::new().concat("counterAttack");
    let r = Constraint::make_ptr_full(
        label,
        Some(attack),
        react,
        Some(fix),
        threshold,
        1,
        1,
        crate::MANY,
    );
    proof {
        reveal_strlit("counterAttack");
        lemma_not_bane("counterAttack"@);
    }
    Some(r)
}

impl Config {
    /// Assemble the constraints for a run: the engine's own, then those
    /// the options ask for, then one for every keyword interaction the
    /// catalog mentions.
    #[verifier::rlimit(100)]
    pub fn build_constraints(&mut self, col: &CardColl) -> (r: Result<Vec<ConstraintPtr>, String>)
        requires
            spec_piles_wf(col.state.piles@),
        ensures
            r matches Ok(cons) ==> spec_cons_ok(cons@, *col, old(self).max_cost_repeat),
            (r is Err) == (exists|m: int|
                0 <= m < old(self).min_types@.len() && !spec_type_available(
                    *col,
                    (#[trigger] old(self).min_types@[m]).0@,
                )),
            r matches Ok(cons) ==> forall|m: int|
                0 <= m < old(self).min_types@.len() ==> spec_has_min_cons(
                    cons@,
                    (#[trigger] old(self).min_types@[m]).0@,
                    old(self).min_types@[m].1,
                ),
            r matches Ok(cons) ==> forall|m: int|
                0 <= m < old(self).max_types@.len() ==> spec_has_max_cons(
                    cons@,
                    (#[trigger] old(self).max_types@[m]).0@,
                    old(self).max_types@[m].1,
                ) || !spec_any_pile_of_type(*col, old(self).max_types@[m].0@),
    {
        let mut cons: Vec<ConstraintPtr> = Vec::new();
        cons.push(bane_constraint(col));
        cons.push(prosp_constraint(col));

        let c = Constraint::make_ptr_full(
            String::new().concat("AddPotion"),
            Some(MissingPotionProperty::make_ptr()),
            FailProperty::make_ptr(),
            Some(AddGroup::make_ptr(col, "Alchemy-base")),
            1,
            crate::MANY,
            crate::MANY,
            crate::MANY,
        );
        proof {
            reveal_strlit("AddPotion");
            lemma_not_bane("AddPotion"@);
        }
        cons.push(c);

        let roll = self.rand.get() % 10;
        let c = Constraint::make_ptr_full(
            String::new().concat("AddProsperityCards"),
            Some(NeedProsperity::make_ptr(roll as u8)),
            FailProperty::make_ptr(),
            Some(AddProsperity::make_ptr(col)),
            1,
            crate::MANY,
            crate::MANY,
            crate::MANY,
        );
        proof {
            reveal_strlit("AddProsperityCards");
            lemma_not_bane("AddProsperityCards"@);
        }
        cons.push(c);

        let c = Constraint::make_ptr_full(
            String::new().concat("AddInteractingGroup"),
            Some(MissingInteractingCardGroupProperty::make_ptr()),
            FailProperty::make_ptr(),
            Some(AddMissingDependencyGroup::make_ptr(col)),
            1,
            crate::MANY,
            crate::MANY,
            crate::MANY,
        );
        proof {
            reveal_strlit("AddInteractingGroup");
            lemma_not_bane("AddInteractingGroup"@);
        }
        cons.push(c);

        let c = Constraint::make_ptr_full(
            String::new().concat("AddInteractingCard"),
            Some(MissingInteractingCardProperty::make_ptr()),
            FailProperty::make_ptr(),
            Some(AddMissingDependency::make_ptr(col)),
            1,
            crate::MANY,
            crate::MANY,
            crate::MANY,
        );
        proof {
            reveal_strlit("AddInteractingCard");
            lemma_not_bane("AddInteractingCard"@);
        }
        cons.push(c);

        let c = Constraint::make_ptr_full(
            String::new().concat("AddHexForDoom"),
            Some(MissingGroupForKeywordProperty::make_ptr("Doom", "Nocturne-Hexes")),
            FailProperty::make_ptr(),
            Some(AddGroup::make_ptr(col, "Nocturne-Hexes")),
            1,
            crate::MANY,
            crate::MANY,
            crate::MANY,
        );
        proof {
            reveal_strlit("AddHexForDoom");
            lemma_not_bane("AddHexForDoom"@);
        }
        cons.push(c);

        let c = Constraint::make_ptr_full(
            String::new().concat("AddBoonForFate"),
            Some(MissingGroupForKeywordProperty::make_ptr("Fate", "Nocturne-Boons")),
            FailProperty::make_ptr(),
            Some(AddGroup::make_ptr(col, "Nocturne-Boons")),
            1,
            crate::MANY,
            crate::MANY,
            crate::MANY,
        );
        proof {
            reveal_strlit("AddBoonForFate");
            lemma_not_bane("AddBoonForFate"@);
        }
        cons.push(c);

        if !self.disable_anti_cursors {
            match curser_constraint(col, 1) {
                Some(c) => {
                    cons.push(c);
                },
                None => {},
            }
        }
        if !self.disable_attack_react {
            match attack_react_constraint(col, 2) {
                Some(c) => {
                    cons.push(c);
                },
                None => {},
            }
        }
        let ghost base = cons@;
        if self.max_cost_repeat > 0 {
            let c = Constraint::make_ptr(
                String::new().concat("RepeatedCosts"),
                RepeatedCostProperty::make_ptr(self.max_cost_repeat as u64),
                None,
                0,
                0,
            );
            proof {
                reveal_strlit("RepeatedCosts");
                lemma_not_bane("RepeatedCosts"@);
            }
            cons.push(c);
            proof {
                assert(spec_repeat_shape(cons@[base.len() as int], old(self).max_cost_repeat as u64));
            }
        }
        let ghost with_repeat = cons@;
        let ghost rep_idx = base.len() as int;
        proof {
            assert(spec_base_constraints(with_repeat));
        }

        let mtn = self.min_types.len();
        let mut mi: usize = 0;
        while mi < mtn
            invariant
                0 <= mi <= mtn,
                mtn == self.min_types@.len(),
                spec_piles_wf(col.state.piles@),
                cons_wf(cons@, *col),
                cons@.len() >= with_repeat.len(),
                forall|k: int| 0 <= k < with_repeat.len() ==> cons@[k] == with_repeat[k],
                spec_base_constraints(with_repeat),
                old(self).max_cost_repeat > 0 ==> 0 <= rep_idx < with_repeat.len()
                    && spec_repeat_shape(with_repeat[rep_idx], old(self).max_cost_repeat as u64),
                self.min_types == old(self).min_types,
                self.max_types == old(self).max_types,
                forall|m: int|
                    0 <= m < mi as int ==> spec_type_available(
                        *col,
                        (#[trigger] old(self).min_types@[m]).0@,
                    ),
                forall|m: int|
                    0 <= m < mi as int ==> spec_has_min_cons(
                        cons@,
                        (#[trigger] old(self).min_types@[m]).0@,
                        old(self).min_types@[m].1,
                    ),
            decreases mtn - mi,
        {
            let tname = self.min_types[mi].0.clone();
            let type_count = self.min_types[mi].1;
            let searcher = TypeProperty::make_ptr(tname.as_str(), true);
            let t_begin = match col.get_iterators(&searcher) {
                Some(v) => v,
                None => {
                    proof {
                        assert(!crate::properties::spec_is_selection_property(searcher));
                        assert(!spec_type_available(*col, old(self).min_types@[mi as int].0@)) by {
                            if spec_type_available(*col, old(self).min_types@[mi as int].0@) {
                                let i = choose|i: int|
                                    0 <= i < col.state.piles@.len() && (
                                    #[trigger] col.state.piles@[i]).kingdom
                                        && col.state.piles@[i].supply
                                        && col.state.piles@[i].spec_has_type(
                                        old(self).min_types@[mi as int].0@,
                                    );
                                assert(crate::properties::spec_pile_meets(
                                    searcher,
                                    col.state.piles@[i],
                                ));
                            }
                        }
                    }
                    let mut msg = String::new();
                    msg = msg.concat("No matches found for type ");
                    msg = msg.concat(tname.as_str());
                    return Err(msg);
                },
            };
            proof {
                assert(spec_type_available(*col, old(self).min_types@[mi as int].0@)) by {
                    assert(t_begin.list@.len() > 0);
                    let pi = t_begin.list@[0];
                    assert(crate::properties::spec_pile_meets(
                        searcher,
                        col.state.piles@[pi as int],
                    ));
                }
            }
            let mut label = String::new();
            label = label.concat("At least some ");
            label = label.concat(tname.as_str());
            label = label.concat(" piles");
            proof {
                reveal_strlit("At least some ");
                assert(label@[0] == 'A');
                lemma_not_bane(label@);
            }
            let c = Constraint::make_ptr(
                label,
                TypeProperty::make_ptr(tname.as_str(), false),
                Some(FindPile::make_ptr(col, &t_begin)),
                type_count as u64,
                crate::MANY,
            );
            let ghost pre_cons = cons@;
            cons.push(c);
            proof {
                assert(spec_min_shape(
                    cons@[pre_cons.len() as int],
                    old(self).min_types@[mi as int].0@,
                    old(self).min_types@[mi as int].1,
                ));
                assert forall|m: int| 0 <= m < mi as int + 1 implies spec_has_min_cons(
                    cons@,
                    (#[trigger] old(self).min_types@[m]).0@,
                    old(self).min_types@[m].1,
                ) by {
                    if m < mi as int {
                        let k = choose|k: int|
                            0 <= k < pre_cons.len() && spec_min_shape(
                                #[trigger] pre_cons[k],
                                old(self).min_types@[m].0@,
                                old(self).min_types@[m].1,
                            );
                        assert(cons@[k] == pre_cons[k]);
                    }
                }
            }
            mi += 1;
        }
        let mxn = self.max_types.len();
        let mut mi: usize = 0;
        while mi < mxn
            invariant
                0 <= mi <= mxn,
                mxn == self.max_types@.len(),
                spec_piles_wf(col.state.piles@),
                cons_wf(cons@, *col),
                cons@.len() >= with_repeat.len(),
                forall|k: int| 0 <= k < with_repeat.len() ==> cons@[k] == with_repeat[k],
                spec_base_constraints(with_repeat),
                old(self).max_cost_repeat > 0 ==> 0 <= rep_idx < with_repeat.len()
                    && spec_repeat_shape(with_repeat[rep_idx], old(self).max_cost_repeat as u64),
                self.max_types == old(self).max_types,
                forall|m: int|
                    0 <= m < old(self).min_types@.len() ==> spec_has_min_cons(
                        cons@,
                        (#[trigger] old(self).min_types@[m]).0@,
                        old(self).min_types@[m].1,
                    ),
                forall|m: int|
                    0 <= m < mi as int ==> spec_has_max_cons(
                        cons@,
                        (#[trigger] old(self).max_types@[m]).0@,
                        old(self).max_types@[m].1,
                    ) || !spec_any_pile_of_type(*col, old(self).max_types@[m].0@),
            decreases mxn - mi,
        {
            let tname = self.max_types[mi].0.clone();
            let type_count = self.max_types[mi].1;
            let searcher = TypeProperty::make_ptr(tname.as_str(), false);
            match col.get_iterators(&searcher) {
                Some(_) => {
                    let mut label = String::new();
                    label = label.concat("At most some ");
                    label = label.concat(tname.as_str());
                    label = label.concat(" piles");
                    proof {
                        reveal_strlit("At most some ");
                        assert(label@[0] == 'A');
                        lemma_not_bane(label@);
                    }
                    let c = Constraint::make_ptr(
                        label,
                        TypeProperty::make_ptr(tname.as_str(), false),
                        None,
                        0,
                        type_count as u64,
                    );
                    let ghost pre_cons = cons@;
                    cons.push(c);
                    proof {
                        assert(spec_max_shape(
                            cons@[pre_cons.len() as int],
                            old(self).max_types@[mi as int].0@,
                            old(self).max_types@[mi as int].1,
                        ));
                        lemma_mins_persist(
                            pre_cons,
                            cons@,
                            old(self).min_types@,
                            old(self).min_types@.len() as int,
                        );
                        lemma_maxs_persist(
                            pre_cons,
                            cons@,
                            old(self).max_types@,
                            mi as int,
                            *col,
                        );
                    }
                },
                None => {
                    proof {
                        assert(!crate::properties::spec_is_selection_property(searcher));
                        assert(!spec_any_pile_of_type(*col, old(self).max_types@[mi as int].0@))
                            by {
                            if spec_any_pile_of_type(*col, old(self).max_types@[mi as int].0@) {
                                let i = choose|i: int|
                                    0 <= i < col.state.piles@.len() && (
                                    #[trigger] col.state.piles@[i]).spec_has_type(
                                        old(self).max_types@[mi as int].0@,
                                    );
                                assert(crate::properties::spec_pile_meets(
                                    searcher,
                                    col.state.piles@[i],
                                ));
                            }
                        }
                    }
                },
            }
            mi += 1;
        }
        // one constraint for every keyword interaction the catalog uses
        let mut interacts_kw: Vec<String> = Vec::new();
        let npiles = col.state.piles.len();
        let mut pi: usize = 0;
        while pi < npiles
            invariant
                0 <= pi <= npiles,
                npiles == col.state.piles@.len(),
                spec_piles_wf(col.state.piles@),
                cons_wf(cons@, *col),
                cons@.len() >= with_repeat.len(),
                forall|k: int| 0 <= k < with_repeat.len() ==> cons@[k] == with_repeat[k],
                spec_base_constraints(with_repeat),
                old(self).max_cost_repeat > 0 ==> 0 <= rep_idx < with_repeat.len()
                    && spec_repeat_shape(with_repeat[rep_idx], old(self).max_cost_repeat as u64),
            decreases npiles - pi,
        {
            let nkw = col.state.piles[pi].kw_interactions.len();
            let mut ki: usize = 0;
            while ki < nkw
                invariant
                    0 <= ki <= nkw,
                    0 <= pi < npiles,
                    npiles == col.state.piles@.len(),
                    nkw == col.state.piles@[pi as int].kw_interactions@.len(),
                decreases nkw - ki,
            {
                crate::piles::insert_str(
                    &mut interacts_kw,
                    col.state.piles[pi].kw_interactions[ki].as_str(),
                );
                ki += 1;
            }
            pi += 1;
        }
        let nik = interacts_kw.len();
        let mut si: usize = 0;
        while si < nik
            invariant
                0 <= si <= nik,
                nik == interacts_kw@.len(),
                spec_piles_wf(col.state.piles@),
                cons_wf(cons@, *col),
                cons@.len() >= with_repeat.len(),
                forall|k: int| 0 <= k < with_repeat.len() ==> cons@[k] == with_repeat[k],
                spec_base_constraints(with_repeat),
                old(self).max_cost_repeat > 0 ==> 0 <= rep_idx < with_repeat.len()
                    && spec_repeat_shape(with_repeat[rep_idx], old(self).max_cost_repeat as u64),
                forall|m: int|
                    0 <= m < old(self).min_types@.len() ==> spec_has_min_cons(
                        cons@,
                        (#[trigger] old(self).min_types@[m]).0@,
                        old(self).min_types@[m].1,
                    ),
                forall|m: int|
                    0 <= m < old(self).max_types@.len() ==> spec_has_max_cons(
                        cons@,
                        (#[trigger] old(self).max_types@[m]).0@,
                        old(self).max_types@[m].1,
                    ) || !spec_any_pile_of_type(*col, old(self).max_types@[m].0@),
            decreases nik - si,
        {
            let s = interacts_kw[si].clone();
            if str_eq(s.as_str(), "gain") {
                let p1 = KeywordProperty::make_ptr("gain", true);
                let p2 = KeywordProperty::make_ptr("+buy", true);
                let prop = EitherProperty::make_ptr(p1, p2);
                match col.get_iterators(&prop) {
                    Some(begin) => {
                        let label = String::new().concat("Provide interacted keyword (gain/+buy)");
                        proof {
                            reveal_strlit("Provide interacted keyword (gain/+buy)");
                            lemma_not_bane("Provide interacted keyword (gain/+buy)"@);
                        }
                        let c = Constraint::make_ptr_full(
                            label,
                            Some(HangingInteractsWith::make_ptr3("gain", "gain", "+buy")),
                            FailProperty::make_ptr(),
                            Some(FindPile::make_ptr(col, &begin)),
                            1,
                            crate::MANY,
                            crate::MANY,
                            crate::MANY,
                        );
                        let ghost pre_cons = cons@;
                        cons.push(c);
                        proof {
                            lemma_mins_persist(
                                pre_cons,
                                cons@,
                                old(self).min_types@,
                                old(self).min_types@.len() as int,
                            );
                            lemma_maxs_persist(
                                pre_cons,
                                cons@,
                                old(self).max_types@,
                                old(self).max_types@.len() as int,
                                *col,
                            );
                        }
                    },
                    None => {},
                }
            } else if str_eq(s.as_str(), "trash") {
                let p1 = KeywordProperty::make_ptr("trash_any", true);
                let p2 = KeywordProperty::make_ptr("trash_limited", true);
                let prop = EitherProperty::make_ptr(p1, p2);
                match col.get_iterators(&prop) {
                    Some(begin) => {
                        let label = String::new().concat(
                            "Provide interacted keyword (trash_any/trash_limited)",
                        );
                        proof {
                            reveal_strlit("Provide interacted keyword (trash_any/trash_limited)");
                            lemma_not_bane(
                                "Provide interacted keyword (trash_any/trash_limited)"@,
                            );
                        }
                        let c = Constraint::make_ptr_full(
                            label,
                            Some(HangingInteractsWith::make_ptr3("trash", "trash_limited", "trash_any")),
                            FailProperty::make_ptr(),
                            Some(FindPile::make_ptr(col, &begin)),
                            1,
                            crate::MANY,
                            crate::MANY,
                            crate::MANY,
                        );
                        let ghost pre_cons = cons@;
                        cons.push(c);
                        proof {
                            lemma_mins_persist(
                                pre_cons,
                                cons@,
                                old(self).min_types@,
                                old(self).min_types@.len() as int,
                            );
                            lemma_maxs_persist(
                                pre_cons,
                                cons@,
                                old(self).max_types@,
                                old(self).max_types@.len() as int,
                                *col,
                            );
                        }
                    },
                    None => {},
                }
            } else {
                let prop = KeywordProperty::make_ptr(s.as_str(), true);
                match col.get_iterators(&prop) {
                    Some(begin) => {
                        let mut label = String::new();
                        label = label.concat("Provide interacted keyword ");
                        label = label.concat(s.as_str());
                        proof {
                            reveal_strlit("Provide interacted keyword ");
                            assert(label@[0] == 'P');
                            lemma_not_bane(label@);
                        }
                        let c = Constraint::make_ptr_full(
                            label,
                            Some(HangingInteractsWith::make_ptr2(s.as_str(), s.as_str())),
                            FailProperty::make_ptr(),
                            Some(FindPile::make_ptr(col, &begin)),
                            1,
                            crate::MANY,
                            crate::MANY,
                            crate::MANY,
                        );
                        let ghost pre_cons = cons@;
                        cons.push(c);
                        proof {
                            lemma_mins_persist(
                                pre_cons,
                                cons@,
                                old(self).min_types@,
                                old(self).min_types@.len() as int,
                            );
                            lemma_maxs_persist(
                                pre_cons,
                                cons@,
                                old(self).max_types@,
                                old(self).max_types@.len() as int,
                                *col,
                            );
                        }
                    },
                    None => {},
                }
            }
            si += 1;
        }
        proof {
            assert(spec_base_constraints(cons@)) by {
                assert(with_repeat[0] == cons@[0]);
                assert(with_repeat[1] == cons@[1]);
                assert(with_repeat[2] == cons@[2]);
                assert(with_repeat[4] == cons@[4]);
                assert(with_repeat[5] == cons@[5]);
            }
            if old(self).max_cost_repeat > 0 {
                assert(spec_repeat_shape(cons@[rep_idx], old(self).max_cost_repeat as u64)) by {
                    assert(with_repeat[rep_idx] == cons@[rep_idx]);
                }
            }
            assert(spec_cons_ok(cons@, *col, old(self).max_cost_repeat));
            assert(!(exists|m: int|
                0 <= m < old(self).min_types@.len() && !spec_type_available(
                    *col,
                    (#[trigger] old(self).min_types@[m]).0@,
                ))) by {
                if exists|m: int|
                    0 <= m < old(self).min_types@.len() && !spec_type_available(
                        *col,
                        (#[trigger] old(self).min_types@[m]).0@,
                    ) {
                    let m = choose|m: int|
                        0 <= m < old(self).min_types@.len() && !spec_type_available(
                            *col,
                            (#[trigger] old(self).min_types@[m]).0@,
                        );
                    assert(spec_type_available(*col, old(self).min_types@[m].0@));
                }
            }
        }
        Ok(cons)
    }
}

/// Box names mapped to the groups they contain, parsed from the lines of
/// a box file.
/// A box line that parses to nothing: not blank, not a comment, and not
/// `name=groups` with both sides present.
pub open spec fn spec_box_line_bad(s: Seq<char>) -> bool {
    &&& s.len() > 0
    &&& s[0] != '#'
    &&& {
        let parts = crate::strutil::spec_split(s, '=');
        parts.len() != 2 || parts[0].len() == 0 || parts[1].len() == 0
    }
}

pub fn read_boxes(lines: &Vec<String>) -> (r: Result<Vec<(String, Vec<String>)>, String>)
    ensures
        (r is Err) == (exists|i: int|
            0 <= i < lines@.len() && spec_box_line_bad((#[trigger] lines@[i])@)),
        r matches Ok(bs) ==> forall|j1: int, j2: int|
            0 <= j1 < j2 < bs@.len() ==> (#[trigger] bs@[j1]).0@ != (#[trigger] bs@[j2]).0@,
{
    let mut res: Vec<(String, Vec<String>)> = Vec::new();
    let n = lines.len();
    let mut i: usize = 0;
    while i < n
        invariant
            0 <= i <= n,
            n == lines@.len(),
            forall|i2: int| 0 <= i2 < i ==> !spec_box_line_bad((#[trigger] lines@[i2])@),
            forall|j1: int, j2: int|
                0 <= j1 < j2 < res@.len() ==> (#[trigger] res@[j1]).0@ != (#[trigger] res@[j2]).0@,
        decreases n - i,
    {
        let line = &lines[i];
        i += 1;
        let llen = line.as_str().unicode_len();
        if llen == 0 {
            continue ;
        }
        if line.as_str().get_char(0) == '#' {
            continue ;
        }
        let split_eq = string_split(line.as_str(), '=');
        if split_eq.len() != 2 {
            let mut msg = String::new();
            msg = msg.concat("Can't parse a box line");
            proof {
                assert(spec_box_line_bad(lines@[i - 1]@));
            }
            return Err(msg);
        }
        if split_eq[0].as_str().unicode_len() == 0 || split_eq[1].as_str().unicode_len() == 0 {
            let mut msg = String::new();
            msg = msg.concat("Can't parse a box line");
            proof {
                assert(spec_box_line_bad(lines@[i - 1]@));
            }
            return Err(msg);
        }
        proof {
            assert(!spec_box_line_bad(lines@[i - 1]@));
        }
        let groups = string_split(split_eq[1].as_str(), ';');
        // find or start the entry for this box
        let name = &split_eq[0];
        let mut at = res.len();
        let mut j: usize = 0;
        while j < res.len()
            invariant
                j <= res@.len(),
                at == res@.len() || (at < res@.len() && res@[at as int].0@ == name@),
                at == res@.len() ==> forall|j2: int| 0 <= j2 < j ==> (#[trigger] res@[j2]).0@
                    != name@,
                forall|j1: int, j2: int|
                    0 <= j1 < j2 < res@.len() ==> (#[trigger] res@[j1]).0@ != (
                    #[trigger] res@[j2]).0@,
            decreases res@.len() - j,
        {
            if at == res.len() && str_eq(res[j].0.as_str(), name.as_str()) {
                at = j;
            }
            j += 1;
        }
        if at == res.len() {
            res.push((name.clone(), Vec::new()));
            proof {
                assert forall|j1: int, j2: int|
                    0 <= j1 < j2 < res@.len() implies (#[trigger] res@[j1]).0@ != (
                #[trigger] res@[j2]).0@ by {
                    if j2 == res@.len() - 1 {
                        assert(res@[j1].0@ != name@);
                    }
                }
            }
        }
        if at >= res.len() {
            continue ;
        }
        let ghost pre_res = res@;
        let mut entry = res.remove(at);
        let ghost ename = entry.0@;
        let gn = groups.len();
        let mut g: usize = 0;
        while g < gn
            invariant
                g <= gn,
                gn == groups@.len(),
                entry.0@ == ename,
                res@ == pre_res.remove(at as int),
                at < pre_res.len(),
                ename == pre_res[at as int].0@,
                forall|j1: int, j2: int|
                    0 <= j1 < j2 < pre_res.len() ==> (#[trigger] pre_res[j1]).0@ != (
                    #[trigger] pre_res[j2]).0@,
            decreases gn - g,
        {
            entry.1.push(groups[g].clone());
            g += 1;
        }
        res.insert(at, entry);
        proof {
            assert forall|j1: int, j2: int|
                0 <= j1 < j2 < res@.len() implies (#[trigger] res@[j1]).0@ != (
            #[trigger] res@[j2]).0@ by {
                assert(res@.len() == pre_res.len());
                assert(res@[j1].0@ == pre_res[j1].0@) by {
                    if j1 < at as int {
                        assert(res@[j1] == pre_res.remove(at as int)[j1]);
                    } else if j1 > at as int {
                        assert(res@[j1] == pre_res.remove(at as int)[j1 - 1]);
                    }
                }
                assert(res@[j2].0@ == pre_res[j2].0@) by {
                    if j2 < at as int {
                        assert(res@[j2] == pre_res.remove(at as int)[j2]);
                    } else if j2 > at as int {
                        assert(res@[j2] == pre_res.remove(at as int)[j2 - 1]);
                    }
                }
            }
        }
    }
    Ok(res)
}

/// Build the configuration from the parsed command line and the lines of
/// the card file (and, when boxes are asked for, the box file).
pub fn load_config(
    cli: Cli,
    card_lines: &Vec<String>,
    box_lines: &Vec<String>,
    box_file_given: bool,
) -> (r: Result<Config, String>)
    ensures
        r matches Ok(conf) ==> {
            &&& spec_piles_wf(conf.piles@)
            &&& conf.why == cli.why
            &&& conf.more_info == cli.info
            &&& conf.validate == !cli.no_validate
            &&& conf.list_collection == cli.list
            &&& conf.disable_anti_cursors == cli.no_anti_cursor
            &&& conf.disable_attack_react == cli.no_attack_react
            &&& conf.max_cost_repeat == cli.max_cost_repeat
            &&& (cli.landscape_count matches Some(n) ==> conf.optional_extras == n)
            &&& (cli.landscape_count is None ==> conf.optional_extras < 3)
            &&& conf.includes@ == cli.included@
            &&& conf.rand.spec_init() == (match cli.seed {
                Some(s) => s as nat,
                None => 0nat,
            })
        },
{
    let temp_piles = match load_cards(card_lines, &cli.exclude) {
        Ok(v) => v,
        Err(e) => {
            return Err(e);
        },
    };
    let mut required_groups: Vec<String> = Vec::new();
    if cli.boxes.len() > 0 {
        if !box_file_given {
            let mut msg = String::new();
            msg = msg.concat("No box file specified.");
            return Err(msg);
        }
        let box_to_set = match read_boxes(box_lines) {
            Ok(v) => v,
            Err(e) => {
                return Err(e);
            },
        };
        if box_to_set.len() == 0 {
            let mut msg = String::new();
            msg = msg.concat("--boxes specified but no boxes known (use --boxfile).");
            return Err(msg);
        }
        let nb = cli.boxes.len();
        let mut bi: usize = 0;
        while bi < nb
            invariant
                bi <= nb,
                nb == cli.boxes@.len(),
            decreases nb - bi,
        {
            let bp = &cli.boxes[bi];
            let mut found = false;
            let mut k: usize = 0;
            while k < box_to_set.len()
                invariant
                    k <= box_to_set@.len(),
                decreases box_to_set@.len() - k,
            {
                if str_eq(box_to_set[k].0.as_str(), bp.as_str()) {
                    found = true;
                    let gn = box_to_set[k].1.len();
                    let mut g: usize = 0;
                    while g < gn
                        invariant
                            g <= gn,
                            k < box_to_set@.len(),
                            gn == box_to_set@[k as int].1@.len(),
                        decreases gn - g,
                    {
                        crate::piles::insert_str(
                            &mut required_groups,
                            box_to_set[k].1[g].as_str(),
                        );
                        g += 1;
                    }
                }
                k += 1;
            }
            if !found {
                let mut msg = String::new();
                msg = msg.concat("Box ");
                msg = msg.concat(bp.as_str());
                msg = msg.concat(" not known in the box file");
                return Err(msg);
            }
            bi += 1;
        }
    }
    let ng = cli.groups.len();
    let mut gi: usize = 0;
    while gi < ng
        invariant
            gi <= ng,
            ng == cli.groups@.len(),
        decreases ng - gi,
    {
        crate::piles::insert_str(&mut required_groups, cli.groups[gi].as_str());
        gi += 1;
    }
    let mut p_set: Vec<Pile> = Vec::new();
    let mut rest = temp_piles;
    if required_groups.len() > 0 {
        crate::piles::insert_str(&mut required_groups, "base");
        let mut used: Vec<bool> = Vec::new();
        let mut ui: usize = 0;
        while ui < required_groups.len()
            invariant
                used@.len() == ui,
                ui <= required_groups@.len(),
            decreases required_groups@.len() - ui,
        {
            used.push(false);
            ui += 1;
        }
        while rest.len() > 0
            invariant
                used@.len() == required_groups@.len(),
                spec_piles_wf(rest@),
                spec_piles_wf(p_set@),
            decreases rest@.len(),
        {
            let ghost rpre = rest@;
            let pile = rest.remove(0);
            proof {
                assert forall|k: int| 0 <= k < rest@.len() implies (#[trigger] rest@[k]).wf() by {
                    assert(rest@[k] == rpre[k + 1]);
                }
            }
            let mut hit = false;
            let mut k: usize = 0;
            while k < required_groups.len()
                invariant
                    k <= required_groups@.len(),
                    used@.len() == required_groups@.len(),
                decreases required_groups@.len() - k,
            {
                if str_eq(required_groups[k].as_str(), pile.card_group.as_str()) {
                    hit = true;
                    used.set(k, true);
                }
                k += 1;
            }
            if hit {
                let ghost prev = p_set@;
                let ghost gp = pile;
                p_set.push(pile);
                proof {
                    assert forall|k: int|
                        0 <= k < p_set@.len() implies (#[trigger] p_set@[k]).wf() by {
                        if k < prev.len() {
                            assert(prev[k].wf());
                        } else {
                            assert(p_set@[k] == gp);
                            assert(rpre[0].wf());
                        }
                    }
                }
            }
        }
        let mut ui: usize = 0;
        while ui < required_groups.len()
            invariant
                ui <= required_groups@.len(),
                used@.len() == required_groups@.len(),
            decreases required_groups@.len() - ui,
        {
            if !used[ui] {
                let mut msg = String::new();
                msg = msg.concat("Unknown group ");
                msg = msg.concat(required_groups[ui].as_str());
                return Err(msg);
            }
            ui += 1;
        }
    } else {
        p_set = rest;
    }
    // validate the inclusion list against the allowed piles
    let mut includes: Vec<String> = Vec::new();
    let ni = cli.included.len();
    let mut ii: usize = 0;
    while ii < ni
        invariant
            ii <= ni,
            ni == cli.included@.len(),
            spec_piles_wf(p_set@),
            includes@ == cli.included@.subrange(0, ii as int),
        decreases ni - ii,
    {
        let name = &cli.included[ii];
        let mut found = false;
        let np2 = p_set.len();
        let mut pi: usize = 0;
        while pi < np2
            invariant
                pi <= np2,
                np2 == p_set@.len(),
            decreases np2 - pi,
        {
            let nc = p_set[pi].cards.len();
            let mut ci: usize = 0;
            while ci < nc
                invariant
                    ci <= nc,
                    pi < np2,
                    np2 == p_set@.len(),
                    nc == p_set@[pi as int].cards@.len(),
                decreases nc - ci,
            {
                if str_eq(p_set[pi].cards[ci].name.as_str(), name.as_str()) {
                    found = true;
                }
                ci += 1;
            }
            pi += 1;
        }
        if !found {
            let mut msg = String::new();
            msg = msg.concat("Can't find card ");
            msg = msg.concat(name.as_str());
            return Err(msg);
        }
        includes.push(name.clone());
        proof {
            assert(includes@ =~= cli.included@.subrange(0, ii + 1));
        }
        ii += 1;
    }
    proof {
        assert(includes@ =~= cli.included@) by {
            assert(cli.included@.subrange(0, ni as int) =~= cli.included@);
        }
    }
    // type quota options of the form Type:Count
    let mut min_types: Vec<(String, u8)> = Vec::new();
    parse_type_quota(&cli.min_type, &mut min_types);
    let mut max_types: Vec<(String, u8)> = Vec::new();
    parse_type_quota(&cli.max_type, &mut max_types);

    let use_bad_rand = cli.badrand;
    let seed = match cli.seed {
        Some(s) => s,
        None => 0,
    };
    let max_cost_repeat = cli.max_cost_repeat;
    let validate = !cli.no_validate;
    let list_collection = cli.list;
    let cap: u64 = if p_set.len() > 1_000_000_000 {
        10_000_000_000
    } else {
        (p_set.len() as u64) * 10
    };
    let mut rand = get_rand_stream(seed, cap, use_bad_rand);
    // bound the catalog to a limited set of group prefixes, counting the
    // hidden base group and whatever the inclusion list forces in
    if cli.max_prefixes > 0 {
        let suggested_max: u16 = cli.max_prefixes as u16 + 1;
        let mut chosen_prefixes: Vec<String> = Vec::new();
        crate::piles::insert_str(&mut chosen_prefixes, "base");
        let ni2 = includes.len();
        let mut ii: usize = 0;
        while ii < ni2
            invariant
                ii <= ni2,
                ni2 == includes@.len(),
                spec_piles_wf(p_set@),
                includes@ == cli.included@,
                rand.spec_init() == (match cli.seed {
                    Some(s) => s as nat,
                    None => 0nat,
                }),
            decreases ni2 - ii,
        {
            let name = &includes[ii];
            let np3 = p_set.len();
            let mut pi: usize = 0;
            while pi < np3
                invariant
                    pi <= np3,
                    np3 == p_set@.len(),
                    spec_piles_wf(p_set@),
                    ii < ni2,
                    ni2 == includes@.len(),
                    rand.spec_init() == (match cli.seed {
                        Some(s) => s as nat,
                        None => 0nat,
                    }),
                decreases np3 - pi,
            {
                let nc = p_set[pi].cards.len();
                let mut ci: usize = 0;
                let mut hit = false;
                while ci < nc
                    invariant
                        ci <= nc,
                        pi < np3,
                        np3 == p_set@.len(),
                        nc == p_set@[pi as int].cards@.len(),
                        rand.spec_init() == (match cli.seed {
                            Some(s) => s as nat,
                            None => 0nat,
                        }),
                    decreases nc - ci,
                {
                    if str_eq(p_set[pi].cards[ci].name.as_str(), name.as_str()) {
                        hit = true;
                    }
                    ci += 1;
                }
                if hit {
                    let prefix = crate::group_name_prefix(p_set[pi].card_group.as_str());
                    crate::piles::insert_str(&mut chosen_prefixes, prefix.as_str());
                }
                pi += 1;
            }
            ii += 1;
        }
        if chosen_prefixes.len() > suggested_max as usize {
            let mut msg = String::new();
            msg = msg.concat("Requested at most ");
            let shown = u64_to_string(suggested_max as u64 - 1);
            msg = msg.concat(shown.as_str());
            msg = msg.concat(" big groups, but included cards are drawn from ");
            let have = u64_to_string(if chosen_prefixes.len() > 0 {
                chosen_prefixes.len() as u64 - 1
            } else {
                0
            });
            msg = msg.concat(have.as_str());
            msg = msg.concat(".");
            return Err(msg);
        }
        let mut group_prefixes: Vec<String> = Vec::new();
        let np4 = p_set.len();
        let mut pi: usize = 0;
        while pi < np4
            invariant
                pi <= np4,
                np4 == p_set@.len(),
                spec_piles_wf(p_set@),
                rand.spec_init() == (match cli.seed {
                    Some(s) => s as nat,
                    None => 0nat,
                }),
            decreases np4 - pi,
        {
            let prefix = crate::group_name_prefix(p_set[pi].card_group.as_str());
            crate::piles::insert_str(&mut group_prefixes, prefix.as_str());
            pi += 1;
        }
        // a set iterated in name order in the original; sort to match
        let mut shuffle_prefixes = crate::strutil::sort_strings(group_prefixes);
        let n_sets = shuffle_prefixes.len();
        if n_sets > 0 {
            let mut pass: usize = 0;
            while pass < 3
                invariant
                    pass <= 3,
                    n_sets == shuffle_prefixes@.len(),
                    n_sets > 0,
                    rand.spec_init() == (match cli.seed {
                        Some(s) => s as nat,
                        None => 0nat,
                    }),
                decreases 3 - pass,
            {
                let mut i2: usize = 0;
                while i2 < n_sets
                    invariant
                        i2 <= n_sets,
                        n_sets == shuffle_prefixes@.len(),
                        n_sets > 0,
                        rand.spec_init() == (match cli.seed {
                            Some(s) => s as nat,
                            None => 0nat,
                        }),
                    decreases n_sets - i2,
                {
                    let pos: usize = (rand.get() % (n_sets as u64)) as usize;
                    if i2 != pos {
                        let a = shuffle_prefixes[i2].clone();
                        let b = shuffle_prefixes[pos].clone();
                        shuffle_prefixes.set(i2, b);
                        shuffle_prefixes.set(pos, a);
                    }
                    i2 += 1;
                }
                pass += 1;
            }
        }
        let mut i2: usize = 0;
        while i2 < n_sets
            invariant
                i2 <= n_sets,
                n_sets == shuffle_prefixes@.len(),
                rand.spec_init() == (match cli.seed {
                    Some(s) => s as nat,
                    None => 0nat,
                }),
            decreases n_sets - i2,
        {
            if chosen_prefixes.len() >= suggested_max as usize {
                break ;
            }
            crate::piles::insert_str(&mut chosen_prefixes, shuffle_prefixes[i2].as_str());
            i2 += 1;
        }
        let mut kept: Vec<Pile> = Vec::new();
        let mut rest2 = p_set;
        while rest2.len() > 0
            invariant
                spec_piles_wf(rest2@),
                spec_piles_wf(kept@),
                rand.spec_init() == (match cli.seed {
                    Some(s) => s as nat,
                    None => 0nat,
                }),
            decreases rest2@.len(),
        {
            let ghost rpre = rest2@;
            let pile = rest2.remove(0);
            proof {
                assert forall|k: int| 0 <= k < rest2@.len() implies (#[trigger] rest2@[k]).wf() by {
                    assert(rest2@[k] == rpre[k + 1]);
                }
            }
            let prefix = crate::group_name_prefix(pile.card_group.as_str());
            if crate::cards::contains_str(&chosen_prefixes, prefix.as_str()) {
                let ghost prev = kept@;
                let ghost gp = pile;
                kept.push(pile);
                proof {
                    assert forall|k: int| 0 <= k < kept@.len() implies (#[trigger] kept@[k]).wf() by {
                        if k < prev.len() {
                            assert(prev[k].wf());
                        } else {
                            assert(kept@[k] == gp);
                            assert(rpre[0].wf());
                        }
                    }
                }
            }
        }
        p_set = kept;
    }
    let opt_extra: u8 = match cli.landscape_count {
        Some(v) => v,
        None => {
            let x = (rand.get() % 7) as u8;
            if x < 3 {
                x
            } else {
                0
            }
        },
    };
    Ok(
        Config {
            rand,
            why: cli.why,
            more_info: cli.info,
            optional_extras: opt_extra,
            validate,
            list_collection,
            disable_anti_cursors: cli.no_anti_cursor,
            disable_attack_react: cli.no_attack_react,
            max_cost_repeat,
            min_types,
            max_types,
            piles: p_set,
            includes,
        },
    )
}

/// Split `Type:Count` entries; anything malformed is skipped, and a bad
/// count reads as zero.
fn parse_type_quota(entries: &Vec<String>, out: &mut Vec<(String, u8)>) {
    let n = entries.len();
    let mut i: usize = 0;
    while i < n
        invariant
            i <= n,
            n == entries@.len(),
        decreases n - i,
    {
        let s = &entries[i];
        let slen = s.as_str().unicode_len();
        match crate::costs::find_char(s.as_str(), ':') {
            Some(d) => {
                if d > 0 {
                    proof {
                        crate::costs::lemma_find_char_pub(s@, ':');
                    }
                    let lhs = s.as_str().substring_char(0, d);
                    let rhs = s.as_str().substring_char(d + 1, slen);
                    let count = match crate::strutil::parse_u8(rhs) {
                        Some(v) => v,
                        None => 0,
                    };
                    out.push((lhs.to_owned(), count));
                }
            },
            None => {},
        }
        i += 1;
    }
}

} // verus!
