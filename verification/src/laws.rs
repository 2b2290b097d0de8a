//! The engine's laws: what every selection the builder returns
//! satisfies, stated over the views its contracts use and proved once
//! and for all.

use vstd::prelude::*;

use crate::collection::{spec_generated_from, CardColl};
use crate::constraints::{
    lemma_prefix_contains, seq_prefix, spec_build_ok, spec_pile_count, spec_prop_count,
    spec_status, ConsResult, Constraint,
};
use crate::config::{
    spec_bane_shape, spec_icard_shape, spec_igroup_shape, spec_max_shape, spec_min_shape,
    spec_potion_shape, spec_prosp_shape, spec_repeat_shape,
};
use crate::costs::{spec_decode, spec_shape_rep, TargetShape};
use crate::properties::{
    pile_has_potion_cost, sel_pile_at, spec_missing_interacting_card,
    spec_missing_interacting_group, spec_missing_potion, spec_pile_meets, spec_repeated_cost,
    spec_sel_has_pile_named, PropertyPtr,
};
use crate::selection::{has_tag, spec_normal_count, SelectionState};
use crate::strutil::{spec_dec_val, spec_digit_char, spec_int_string, spec_nat_string};

verus! {

/// A kingdom never holds more kingdom-supply piles than its cap allows,
/// and the count it carries is the true one.
pub proof fn lemma_supply_within_cap(sel: SelectionState, col: CardColl)
    requires
        sel.wf(col),
    ensures
        sel.current_normal_pile_count <= sel.required_cards,
        sel.current_normal_pile_count as int == spec_normal_count(sel.piles@, col.state.piles@),
{
}

/// Every pile appears at most once in a kingdom.
pub proof fn lemma_piles_distinct(sel: SelectionState, col: CardColl)
    requires
        sel.wf(col),
    ensures
        forall|i: int, j: int| 0 <= i < j < sel.piles@.len() ==> sel.piles@[i] != sel.piles@[j],
{
}

/// The always-false property matches no pile at all.
proof fn lemma_fail_count_zero(p: PropertyPtr, piles: Seq<usize>, col: CardColl)
    requires
        p matches PropertyPtr::Fail(_),
    ensures
        spec_pile_count(p, piles, col) == 0,
    decreases piles.len(),
{
    if piles.len() > 0 {
        lemma_fail_count_zero(p, piles.drop_last(), col);
    }
}

/// A fix-demanding constraint whose main property always fails can only
/// rest when its precondition is quiet.
proof fn lemma_guarded_fix_quiet(c: Constraint, sel: SelectionState, col: CardColl)
    requires
        spec_status(c, sel, col) != ConsResult::ConsActionReq,
        c.property matches PropertyPtr::Fail(_),
        c.prop_active == 1,
        c.prop_satisfied == crate::MANY,
        c.prop_inactive >= 1,
        c.prop_broken >= 1,
        c.precondition is Some,
        crate::properties::spec_is_selection_property(c.precondition->Some_0),
    ensures
        !crate::properties::spec_selection_meets(c.precondition->Some_0, sel, col),
{
    lemma_fail_count_zero(c.property, sel.piles@, col);
    if crate::properties::spec_selection_meets(c.precondition->Some_0, sel, col) {
        assert(spec_prop_count(c.precondition->Some_0, sel, col) == 1);
        assert(spec_status(c, sel, col) == ConsResult::ConsActionReq);
    }
}

/// A pile with a potion cost brings the Potion pile with it.
pub proof fn lemma_potion_accompanied(sel: SelectionState, cons: Seq<Constraint>, col: CardColl, k: int)
    requires
        sel.wf(col),
        0 <= k < cons.len(),
        spec_potion_shape(cons[k]),
        spec_status(cons[k], sel, col) != ConsResult::ConsActionReq,
    ensures
        !spec_missing_potion(sel, col),
        crate::properties::spec_found_potion_cost(sel, col) ==> spec_sel_has_pile_named(
            sel,
            col,
            "Potion"@,
        ),
{
    lemma_guarded_fix_quiet(cons[k], sel, col);
}

/// Every `card(X)` interaction among the chosen piles is matched by the
/// presence of card `X`.
pub proof fn lemma_interacting_cards_present(
    sel: SelectionState,
    cons: Seq<Constraint>,
    col: CardColl,
    k: int,
)
    requires
        sel.wf(col),
        0 <= k < cons.len(),
        spec_icard_shape(cons[k]),
        spec_status(cons[k], sel, col) != ConsResult::ConsActionReq,
    ensures
        !spec_missing_interacting_card(sel, col),
{
    lemma_guarded_fix_quiet(cons[k], sel, col);
}

/// Every `group(G)` interaction among the chosen piles is matched by the
/// `added<G>` note.
pub proof fn lemma_interacting_groups_noted(
    sel: SelectionState,
    cons: Seq<Constraint>,
    col: CardColl,
    k: int,
)
    requires
        sel.wf(col),
        0 <= k < cons.len(),
        spec_igroup_shape(cons[k]),
        spec_status(cons[k], sel, col) != ConsResult::ConsActionReq,
    ensures
        !spec_missing_interacting_group(sel, col),
{
    lemma_guarded_fix_quiet(cons[k], sel, col);
}

/// A property that some chosen pile meets counts at least one.
proof fn lemma_count_at_least_one(p: PropertyPtr, piles: Seq<usize>, col: CardColl, i: int)
    requires
        0 <= i < piles.len(),
        piles[i] < col.state.piles@.len(),
        spec_pile_meets(p, col.state.piles@[piles[i] as int]),
    ensures
        spec_pile_count(p, piles, col) >= 1,
    decreases piles.len(),
{
    lemma_count_nonneg(p, piles.drop_last(), col);
    if i < piles.len() - 1 {
        lemma_count_at_least_one(p, piles.drop_last(), col, i);
    }
}

proof fn lemma_count_nonneg(p: PropertyPtr, piles: Seq<usize>, col: CardColl)
    ensures
        spec_pile_count(p, piles, col) >= 0,
    decreases piles.len(),
{
    if piles.len() > 0 {
        lemma_count_nonneg(p, piles.drop_last(), col);
    }
}

/// Five or more Prosperity piles force the Prosperity-base note, and
/// with it every non-kingdom Prosperity-base pile of the catalog.
pub proof fn lemma_prosperity_base(sel: SelectionState, cons: Seq<Constraint>, col: CardColl, k: int)
    requires
        sel.wf(col),
        0 <= k < cons.len(),
        spec_prosp_shape(cons[k]),
        spec_status(cons[k], sel, col) != ConsResult::ConsActionReq,
        spec_prop_count(cons[k].precondition->Some_0, sel, col) >= 5,
    ensures
        sel.spec_has_note("addedProsperity-base"@),
        forall|q: int|
            0 <= q < col.state.piles@.len() && !(#[trigger] col.state.piles@[q]).spec_is_normal()
                && col.state.piles@[q].card_group@ == "Prosperity-base"@ ==> sel.piles@.contains(
                q as usize,
            ),
{
    let c = cons[k];
    assert(spec_status(c, sel, col) != ConsResult::ConsActionReq);
    let q = spec_prop_count(c.property, sel, col);
    if !sel.spec_has_note("addedProsperity-base"@) {
        assert(q == 0) by {
            assert(!crate::properties::spec_selection_meets(c.property, sel, col));
        }
        assert(spec_status(c, sel, col) == ConsResult::ConsActionReq);
    }
    assert forall|qi: int|
        0 <= qi < col.state.piles@.len() && !(#[trigger] col.state.piles@[qi]).spec_is_normal()
            && col.state.piles@[qi].card_group@ == "Prosperity-base"@ implies sel.piles@.contains(
        qi as usize,
    ) by {
        assert(sel.spec_has_note("added"@ + col.state.piles@[qi].card_group@)) by {
            assert("added"@ + "Prosperity-base"@ =~= "addedProsperity-base"@) by {
                reveal_strlit("added");
                reveal_strlit("Prosperity-base");
                reveal_strlit("addedProsperity-base");
            }
        }
    }
}

/// A Young Witch kingdom carries the bane note, and with it exactly one
/// pile tagged `Bane`: a kingdom-supply Action pile costing 2 or 3, with
/// the card cap widened by one for it.
pub proof fn lemma_young_witch_bane(sel: SelectionState, cons: Seq<Constraint>, col: CardColl, k: int)
    requires
        sel.wf(col),
        0 <= k < cons.len(),
        spec_bane_shape(cons[k]),
        spec_status(cons[k], sel, col) != ConsResult::ConsActionReq,
        spec_status(cons[k], sel, col) != ConsResult::ConsFail,
        spec_sel_has_pile_named(sel, col, "Young Witch"@),
    ensures
        sel.spec_has_note("hasBane"@),
        sel.required_cards as int == sel.initial_cards@ as int + 1,
        exists|p: usize|
            {
                &&& #[trigger] has_tag(sel.tags@, p, "Bane"@)
                &&& sel.piles@.contains(p)
                &&& p < col.state.piles@.len()
                &&& SelectionState::spec_bane_pile(col.state.piles@[p as int])
            },
        forall|p: usize, q: usize|
            has_tag(sel.tags@, p, "Bane"@) && has_tag(sel.tags@, q, "Bane"@) ==> p == q,
{
    let c = cons[k];
    if c.property matches PropertyPtr::Fail(_) && c.prop_broken == 0 {
        lemma_fail_count_zero(c.property, sel.piles@, col);
        assert(spec_status(c, sel, col) == ConsResult::ConsFail);
    }
    let pre = c.precondition->Some_0;
    let i = choose|i: int|
        #![trigger crate::properties::sel_pile_at(sel, col, i)]
        0 <= i < sel.piles@.len() && crate::properties::sel_pile_at(sel, col, i).name@
            == "Young Witch"@;
    assert(spec_pile_meets(pre, col.state.piles@[sel.piles@[i] as int]));
    lemma_count_at_least_one(pre, sel.piles@, col, i);
    if !sel.spec_has_note("hasBane"@) {
        assert(spec_prop_count(c.property, sel, col) == 0) by {
            assert(!crate::properties::spec_selection_meets(c.property, sel, col));
        }
        assert(spec_status(c, sel, col) == ConsResult::ConsActionReq);
    }
}

/// How many chosen piles carry a given type.
pub open spec fn spec_type_count(piles: Seq<usize>, col: CardColl, t: Seq<char>) -> int
    decreases piles.len(),
{
    if piles.len() == 0 {
        0
    } else {
        spec_type_count(piles.drop_last(), col, t) + if piles.last() < col.state.piles@.len()
            && col.state.piles@[piles.last() as int].spec_has_type(t) {
            1int
        } else {
            0int
        }
    }
}

proof fn lemma_type_count_eq(p: PropertyPtr, piles: Seq<usize>, col: CardColl, t: Seq<char>)
    requires
        p matches PropertyPtr::Type(tp) && tp.card_type@ == t && !tp.kingdom_and_supply,
    ensures
        spec_pile_count(p, piles, col) == spec_type_count(piles, col, t),
    decreases piles.len(),
{
    if piles.len() > 0 {
        lemma_type_count_eq(p, piles.drop_last(), col, t);
    }
}

/// With a minimum-type constraint satisfied, at least `n` chosen piles
/// carry the type.
pub proof fn lemma_min_type(
    sel: SelectionState,
    cons: Seq<Constraint>,
    col: CardColl,
    k: int,
    t: Seq<char>,
    n: u8,
)
    requires
        sel.wf(col),
        0 <= k < cons.len(),
        spec_min_shape(cons[k], t, n),
        spec_status(cons[k], sel, col) != ConsResult::ConsActionReq,
        spec_pile_count(cons[k].property, sel.piles@, col) < crate::MANY + 1,
    ensures
        spec_type_count(sel.piles@, col, t) >= n as int,
{
    let c = cons[k];
    lemma_type_count_eq(c.property, sel.piles@, col, t);
    assert(spec_prop_count(c.property, sel, col) == spec_type_count(sel.piles@, col, t));
    if spec_type_count(sel.piles@, col, t) < n as int {
        assert(spec_status(c, sel, col) == ConsResult::ConsActionReq);
    }
}

/// With a maximum-type constraint unbroken, at most `n` chosen piles
/// carry the type.
pub proof fn lemma_max_type(
    sel: SelectionState,
    cons: Seq<Constraint>,
    col: CardColl,
    k: int,
    t: Seq<char>,
    n: u8,
)
    requires
        sel.wf(col),
        0 <= k < cons.len(),
        spec_max_shape(cons[k], t, n),
        spec_status(cons[k], sel, col) != ConsResult::ConsFail,
    ensures
        spec_type_count(sel.piles@, col, t) <= n as int,
{
    let c = cons[k];
    lemma_type_count_eq(c.property, sel.piles@, col, t);
    if spec_type_count(sel.piles@, col, t) > n as int {
        assert(spec_prop_count(c.property, sel, col) >= c.prop_broken as int);
        assert(spec_status(c, sel, col) == ConsResult::ConsFail);
    }
}

/// With a repeated-cost constraint unbroken, no cost of the supply
/// occurs in more than `m` chosen piles.
pub proof fn lemma_cost_repeats_bounded(
    sel: SelectionState,
    cons: Seq<Constraint>,
    col: CardColl,
    k: int,
    m: u64,
)
    requires
        sel.wf(col),
        0 <= k < cons.len(),
        spec_repeat_shape(cons[k], m),
        spec_status(cons[k], sel, col) != ConsResult::ConsFail,
    ensures
        !spec_repeated_cost(sel, col, m),
        forall|x: crate::costs::Cost|
            #[trigger] sel.costs_in_supply@.contains(x)
                ==> crate::properties::spec_cost_occurrences(sel.piles@, col, x) <= m as int,
{
    let c = cons[k];
    if spec_repeated_cost(sel, col, m) {
        assert(spec_prop_count(c.property, sel, col) == 1);
        assert(spec_status(c, sel, col) == ConsResult::ConsFail);
    }
}

/// A decimal rendering always reads back to the number it came from.
pub proof fn lemma_nat_string_value(n: int)
    requires
        n >= 0,
    ensures
        spec_dec_val(spec_nat_string(n)) == n,
    decreases n,
{
    if n < 10 {
        assert(spec_nat_string(n) == seq![spec_digit_char(n)]);
        assert(spec_nat_string(n).drop_last() =~= Seq::<char>::empty());
        assert(spec_dec_val(Seq::<char>::empty()) == 0);
        assert(spec_nat_string(n).last() == spec_digit_char(n));
        assert(crate::strutil::spec_digit_val(spec_digit_char(n)) == n);
    } else {
        lemma_nat_string_value(n / 10);
        assert(spec_nat_string(n) == spec_nat_string(n / 10).push(spec_digit_char(n % 10)));
        assert(spec_nat_string(n).drop_last() =~= spec_nat_string(n / 10));
        assert(spec_nat_string(n).last() == spec_digit_char(n % 10));
        assert(crate::strutil::spec_digit_val(spec_digit_char(n % 10)) == n % 10);
        assert(spec_dec_val(spec_nat_string(n)) == spec_dec_val(spec_nat_string(n / 10)) * 10 + n
            % 10);
    }
}

/// Two targets decoded from interaction strings are deduplicated by
/// their canonical strings soundly: equal strings mean the same kind
/// with the same bound, offset and strictness. (Equal in-set strings
/// come from ranges rendered identically.)
pub proof fn lemma_canonical_rep_faithful(s1: Seq<char>, s2: Seq<char>, a: TargetShape, b: TargetShape)
    requires
        spec_decode(s1) == Some(a),
        spec_decode(s2) == Some(b),
        spec_shape_rep(a) == spec_shape_rep(b),
    ensures
        a matches TargetShape::Relative { delta: d1, strict: t1, .. } ==> (b matches
            TargetShape::Relative { delta: d2, strict: t2, .. } && d1 == d2 && t1 == t2),
        a matches TargetShape::UpTo { limit: l1, .. } ==> (b matches TargetShape::UpTo {
            limit: l2,
            ..
        } && l1 == l2),
        a matches TargetShape::InSet { .. } ==> b matches TargetShape::InSet { .. },
{
    reveal_strlit("CR");
    reveal_strlit("UT");
    reveal_strlit("IS");
    reveal_strlit("true");
    reveal_strlit("false");
    let ra = spec_shape_rep(a);
    let rb = spec_shape_rep(b);
    lemma_decoded_rep_starts(s1, a);
    lemma_decoded_rep_starts(s2, b);
    match a {
        TargetShape::Relative { delta: d1, strict: t1, .. } => {
            assert(ra[0] == 'C');
            match b {
                TargetShape::Relative { delta: d2, strict: t2, .. } => {
                    lemma_rel_rep_parts(t1, d1);
                    lemma_rel_rep_parts(t2, d2);
                    assert(t1 == t2) by {
                        if t1 != t2 {
                            assert(ra[2] == (if t1 {
                                't'
                            } else {
                                'f'
                            }));
                            assert(rb[2] == (if t2 {
                                't'
                            } else {
                                'f'
                            }));
                        }
                    }
                    let pre_len: int = if t1 {
                        6
                    } else {
                        7
                    };
                    assert(spec_int_string(d1) =~= ra.subrange(pre_len, ra.len() as int));
                    assert(spec_int_string(d2) =~= rb.subrange(pre_len, rb.len() as int));
                    lemma_int_string_injective(d1, d2);
                },
                TargetShape::UpTo { .. } => {
                    assert(rb[0] == 'U');
                },
                TargetShape::InSet { .. } => {
                    assert(rb[0] == 'I');
                },
            }
        },
        TargetShape::UpTo { limit: l1, .. } => {
            assert(ra[0] == 'U');
            match b {
                TargetShape::Relative { .. } => {
                    assert(rb[0] == 'C');
                },
                TargetShape::UpTo { limit: l2, .. } => {
                    assert(spec_int_string(l1) =~= ra.subrange(2, ra.len() as int));
                    assert(spec_int_string(l2) =~= rb.subrange(2, rb.len() as int));
                    lemma_int_string_injective(l1, l2);
                },
                TargetShape::InSet { .. } => {
                    assert(rb[0] == 'I');
                },
            }
        },
        TargetShape::InSet { .. } => {
            assert(ra[0] == 'I');
            match b {
                TargetShape::Relative { .. } => {
                    assert(rb[0] == 'C');
                },
                TargetShape::UpTo { .. } => {
                    assert(rb[0] == 'U');
                },
                TargetShape::InSet { .. } => {},
            }
        },
    }
}

/// A decoded target's canonical string opens with its kind's letters.
proof fn lemma_decoded_rep_starts(s: Seq<char>, a: TargetShape)
    requires
        spec_decode(s) == Some(a),
    ensures
        a matches TargetShape::Relative { rep, strict, delta, .. } ==> rep
            == crate::costs::spec_rep_relative(strict, delta),
        a matches TargetShape::UpTo { rep, limit, .. } ==> rep == crate::costs::spec_rep_upto(
            limit,
        ),
        a matches TargetShape::InSet { rep, costs, .. } ==> rep == crate::costs::spec_rep_inset(
            costs,
        ),
{
}

proof fn lemma_rel_rep_parts(strict: bool, delta: int)
    ensures
        crate::costs::spec_rep_relative(strict, delta).len() == (if strict {
            6int
        } else {
            7int
        }) + spec_int_string(delta).len(),
        crate::costs::spec_rep_relative(strict, delta)[0] == 'C',
        crate::costs::spec_rep_relative(strict, delta)[2] == (if strict {
            't'
        } else {
            'f'
        }),
{
    reveal_strlit("CR");
    reveal_strlit("true");
    reveal_strlit("false");
}

/// Distinct integers never share a decimal rendering.
proof fn lemma_int_string_injective(x: int, y: int)
    requires
        spec_int_string(x) == spec_int_string(y),
    ensures
        x == y,
{
    reveal_strlit("-");
    lemma_nat_string_head(if x < 0 {
        -x
    } else {
        x
    });
    lemma_nat_string_head(if y < 0 {
        -y
    } else {
        y
    });
    if x < 0 && y >= 0 {
        assert(spec_int_string(x)[0] == '-');
        assert(spec_int_string(y)[0] != '-');
    } else if x >= 0 && y < 0 {
        assert(spec_int_string(x)[0] != '-');
        assert(spec_int_string(y)[0] == '-');
    } else if x >= 0 && y >= 0 {
        lemma_nat_string_value(x);
        lemma_nat_string_value(y);
    } else {
        assert(spec_nat_string(-x) =~= spec_int_string(x).subrange(
            1,
            spec_int_string(x).len() as int,
        ));
        assert(spec_nat_string(-y) =~= spec_int_string(y).subrange(
            1,
            spec_int_string(y).len() as int,
        ));
        lemma_nat_string_value(-x);
        lemma_nat_string_value(-y);
    }
}

/// A decimal rendering is non-empty, and its first character is a digit,
/// never a sign.
proof fn lemma_nat_string_head(n: int)
    requires
        n >= 0,
    ensures
        spec_nat_string(n).len() >= 1,
        spec_nat_string(n)[0] != '-',
        crate::strutil::spec_is_digit(spec_nat_string(n)[0]),
    decreases n,
{
    if n >= 10 {
        lemma_nat_string_head(n / 10);
    }
}


/// Everything a successfully built kingdom owes its players, read off
/// the builder's contract and the engine's own constraints in one step:
/// the supply is capped and duplicate-free, a potion cost brings the
/// Potion pile, every `card(X)` and `group(G)` interaction is honoured,
/// five Prosperity piles bring the base cards, and a Young Witch comes
/// with exactly one bane.
pub proof fn lemma_built_kingdom_laws(
    sel: SelectionState,
    start: SelectionState,
    cons: Seq<Constraint>,
    col: CardColl,
)
    requires
        spec_build_ok(sel, start, cons, col),
        crate::config::spec_base_constraints(cons),
    ensures
        sel.current_normal_pile_count <= sel.required_cards,
        forall|i: int, j: int| 0 <= i < j < sel.piles@.len() ==> sel.piles@[i] != sel.piles@[j],
        !spec_missing_potion(sel, col),
        !spec_missing_interacting_card(sel, col),
        !spec_missing_interacting_group(sel, col),
        spec_prop_count(cons[1].precondition->Some_0, sel, col) >= 5 ==> sel.spec_has_note(
            "addedProsperity-base"@,
        ),
        spec_sel_has_pile_named(sel, col, "Young Witch"@) ==> {
            &&& sel.spec_has_note("hasBane"@)
            &&& sel.required_cards as int == sel.initial_cards@ as int + 1
            &&& exists|p: usize|
                {
                    &&& #[trigger] has_tag(sel.tags@, p, "Bane"@)
                    &&& sel.piles@.contains(p)
                    &&& p < col.state.piles@.len()
                    &&& SelectionState::spec_bane_pile(col.state.piles@[p as int])
                }
            &&& forall|p: usize, q: usize|
                has_tag(sel.tags@, p, "Bane"@) && has_tag(sel.tags@, q, "Bane"@) ==> p == q
        },
{
    lemma_supply_within_cap(sel, col);
    lemma_piles_distinct(sel, col);
    lemma_potion_accompanied(sel, cons, col, 2);
    lemma_interacting_cards_present(sel, cons, col, 5);
    lemma_interacting_groups_noted(sel, cons, col, 4);
    if spec_prop_count(cons[1].precondition->Some_0, sel, col) >= 5 {
        lemma_prosperity_base(sel, cons, col, 1);
    }
    if spec_sel_has_pile_named(sel, col, "Young Witch"@) {
        lemma_young_witch_bane(sel, cons, col, 0);
    }
}


/// A property count does not move when a list is extended only by piles
/// that do not meet the property.
proof fn lemma_count_extend(p: PropertyPtr, a: Seq<usize>, b: Seq<usize>, col: CardColl)
    requires
        seq_prefix(a, b),
        forall|i: int|
            a.len() <= i < b.len() ==> (#[trigger] b[i]) < col.state.piles@.len()
                && !spec_pile_meets(p, col.state.piles@[b[i] as int]),
    ensures
        spec_pile_count(p, b, col) == spec_pile_count(p, a, col),
    decreases b.len(),
{
    if b.len() == a.len() {
        assert(a =~= b);
    } else {
        assert(b.len() > a.len());
        assert(!spec_pile_meets(p, col.state.piles@[b.last() as int])) by {
            assert(b[b.len() - 1] == b.last());
        }
        assert(seq_prefix(a, b.drop_last()));
        assert forall|i: int|
            a.len() <= i < b.drop_last().len() implies (#[trigger] b.drop_last()[i])
            < col.state.piles@.len() && !spec_pile_meets(
            p,
            col.state.piles@[b.drop_last()[i] as int],
        ) by {
            assert(b.drop_last()[i] == b[i]);
        }
        lemma_count_extend(p, a, b.drop_last(), col);
    }
}

/// In the returned kingdom, as in the built draft: a potion cost brings
/// the Potion pile. The one proviso names the inputs on which the
/// DarkAges post-pass could break it: a DarkAges-base pile that itself
/// carries a potion cost.
pub proof fn lemma_generated_potion(
    final_sel: SelectionState,
    mid: SelectionState,
    cons: Seq<Constraint>,
    col: CardColl,
    k: int,
)
    requires
        spec_generated_from(final_sel, mid, cons, col),
        0 <= k < cons.len(),
        spec_potion_shape(cons[k]),
        forall|q: int|
            0 <= q < col.state.piles@.len() && (#[trigger] col.state.piles@[q]).card_group@
                == "DarkAges-base"@ ==> !pile_has_potion_cost(col.state.piles@[q]),
    ensures
        crate::properties::spec_found_potion_cost(final_sel, col) ==> spec_sel_has_pile_named(
            final_sel,
            col,
            "Potion"@,
        ),
{
    lemma_potion_accompanied(mid, cons, col, k);
    if crate::properties::spec_found_potion_cost(final_sel, col) {
        let i = choose|i: int|
            #![trigger sel_pile_at(final_sel, col, i)]
            0 <= i < final_sel.piles@.len() && sel_pile_at(final_sel, col, i).name@ != "Potion"@
                && pile_has_potion_cost(sel_pile_at(final_sel, col, i));
        if i < mid.piles@.len() {
            assert(mid.piles@[i] == final_sel.piles@[i]);
            assert(sel_pile_at(mid, col, i) == sel_pile_at(final_sel, col, i));
            assert(crate::properties::spec_found_potion_cost(mid, col));
            assert(spec_sel_has_pile_named(mid, col, "Potion"@));
            let j = choose|j: int|
                #![trigger sel_pile_at(mid, col, j)]
                0 <= j < mid.piles@.len() && sel_pile_at(mid, col, j).name@ == "Potion"@;
            assert(final_sel.piles@[j] == mid.piles@[j]);
            assert(sel_pile_at(final_sel, col, j).name@ == "Potion"@);
        } else {
            assert(col.state.piles@[final_sel.piles@[i] as int].card_group@ == "DarkAges-base"@);
        }
    }
}

/// In the returned kingdom, as in the built draft: five Prosperity
/// piles bring the note and the Prosperity-base cards; the post-pass
/// appends only DarkAges-base piles, which never count as Prosperity.
pub proof fn lemma_generated_prosperity(
    final_sel: SelectionState,
    mid: SelectionState,
    cons: Seq<Constraint>,
    col: CardColl,
    k: int,
)
    requires
        spec_generated_from(final_sel, mid, cons, col),
        0 <= k < cons.len(),
        spec_prosp_shape(cons[k]),
        spec_prop_count(cons[k].precondition->Some_0, final_sel, col) >= 5,
    ensures
        final_sel.spec_has_note("addedProsperity-base"@),
        forall|q: int|
            0 <= q < col.state.piles@.len() && !(#[trigger] col.state.piles@[q]).spec_is_normal()
                && col.state.piles@[q].card_group@ == "Prosperity-base"@
                ==> final_sel.piles@.contains(q as usize),
{
    let pre = cons[k].precondition->Some_0;
    assert forall|i: int|
        mid.piles@.len() <= i < final_sel.piles@.len() implies (#[trigger] final_sel.piles@[i])
        < col.state.piles@.len() && !spec_pile_meets(
        p_of(pre),
        col.state.piles@[final_sel.piles@[i] as int],
    ) by {
        assert(col.state.piles@[final_sel.piles@[i] as int].card_group@ == "DarkAges-base"@);
        assert("DarkAges-base"@ != "Prosperity"@) by {
            reveal_strlit("DarkAges-base");
            reveal_strlit("Prosperity");
            assert("DarkAges-base"@[0] == 'D');
            assert("Prosperity"@[0] == 'P');
        }
    }
    lemma_count_extend(pre, mid.piles@, final_sel.piles@, col);
    assert(spec_prop_count(pre, mid, col) >= 5);
    lemma_prosperity_base(mid, cons, col, k);
    assert(final_sel.spec_has_note("addedProsperity-base"@));
    assert forall|q: int|
        0 <= q < col.state.piles@.len() && !(#[trigger] col.state.piles@[q]).spec_is_normal()
            && col.state.piles@[q].card_group@ == "Prosperity-base"@ implies final_sel.piles@.contains(
        q as usize,
    ) by {
        assert(mid.piles@.contains(q as usize));
        lemma_prefix_contains(mid.piles@, final_sel.piles@, q as usize);
    }
}

/// The identity spec function, so that a pile-level property can stand
/// where a trigger needs a term.
pub open spec fn p_of(p: PropertyPtr) -> PropertyPtr {
    p
}

/// In the returned kingdom, as in the built draft: Young Witch comes
/// with the bane note, a widened cap and exactly one legal `Bane` pile.
/// The proviso names the inputs the post-pass could disturb: a
/// DarkAges-base pile that is itself named Young Witch.
pub proof fn lemma_generated_young_witch(
    final_sel: SelectionState,
    mid: SelectionState,
    cons: Seq<Constraint>,
    col: CardColl,
    k: int,
)
    requires
        spec_generated_from(final_sel, mid, cons, col),
        0 <= k < cons.len(),
        spec_bane_shape(cons[k]),
        spec_sel_has_pile_named(final_sel, col, "Young Witch"@),
        forall|q: int|
            0 <= q < col.state.piles@.len() && (#[trigger] col.state.piles@[q]).card_group@
                == "DarkAges-base"@ ==> col.state.piles@[q].name@ != "Young Witch"@,
    ensures
        final_sel.spec_has_note("hasBane"@),
        final_sel.required_cards as int == final_sel.initial_cards@ as int + 1,
        exists|p: usize|
            {
                &&& #[trigger] has_tag(final_sel.tags@, p, "Bane"@)
                &&& final_sel.piles@.contains(p)
                &&& p < col.state.piles@.len()
                &&& SelectionState::spec_bane_pile(col.state.piles@[p as int])
            },
        forall|p: usize, q: usize|
            has_tag(final_sel.tags@, p, "Bane"@) && has_tag(final_sel.tags@, q, "Bane"@) ==> p
                == q,
{
    let i = choose|i: int|
        #![trigger sel_pile_at(final_sel, col, i)]
        0 <= i < final_sel.piles@.len() && sel_pile_at(final_sel, col, i).name@
            == "Young Witch"@;
    if i < mid.piles@.len() {
        assert(mid.piles@[i] == final_sel.piles@[i]);
        assert(sel_pile_at(mid, col, i) == sel_pile_at(final_sel, col, i));
        assert(spec_sel_has_pile_named(mid, col, "Young Witch"@));
    } else {
        assert(col.state.piles@[final_sel.piles@[i] as int].card_group@ == "DarkAges-base"@);
        assert(false);
    }
    lemma_young_witch_bane(mid, cons, col, k);
    assert(final_sel.spec_has_note("hasBane"@));
    // with the note in place, the kingdom's own invariant does the rest
    assert(final_sel.wf_bane(col));
}

} // verus!
