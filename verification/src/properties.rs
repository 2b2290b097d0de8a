//! Properties: predicates over a single pile or over the whole draft,
//! the tests that constraints count.

use vstd::prelude::*;

use crate::cards::has_str;
use crate::collection::{spec_pile_for_card, spec_piles_wf, CardColl};
use crate::costs::{Cost, CostSet};
use crate::piles::Pile;
use crate::selection::{key_present, SelectionPtr, SelectionState};
use crate::strutil::{spec_starts_with, starts_with, str_eq};

verus! {

pub struct KingdomAndSupplyProperty {}

pub struct TypeProperty {
    pub card_type: String,
    pub kingdom_and_supply: bool,
}

pub struct NameProperty {
    pub name: String,
}

pub struct CostProperty {
    pub single_cost: Option<Cost>,
    pub costs: CostSet,
    pub supply_only: bool,
}

pub struct CostAndTypeProperty {
    pub cost_prop: CostProperty,
    pub type_prop: TypeProperty,
}

pub struct NoteProperty {
    pub text: String,
}

pub struct EitherProperty {
    pub prop1: Box<PropertyPtr>,
    pub prop2: Box<PropertyPtr>,
}

pub struct CardGroupProperty {
    pub group_name: String,
}

pub struct OptionalExtraProperty {}

pub struct OtherInteractionProperty {
    pub other_interact: String,
    pub kingdom_and_supply: bool,
}

pub struct MissingPotionProperty {}

pub struct MissingGroupForKeywordProperty {
    pub type_needed: String,
    pub note: String,
}

pub struct MissingInteractingCardGroupProperty {}

pub struct MissingInteractingCardProperty {}

pub struct FailProperty {}

pub struct RepeatedCostProperty {
    pub max_repeats: u64,
}

pub struct HangingInteractsWith {
    pub interacts_with: String,
    pub kw: String,
    pub alt_kw: String,
}

pub struct KeywordProperty {
    pub keyword: String,
    pub kingdom_and_supply: bool,
}

pub struct KeywordInteractionProperty {
    pub keyword: String,
}

pub struct NeedProsperity {
    pub threshold: u8,
}

/// The closed sum of every property the engine knows.
pub enum PropertyPtr {
    KingdomAndSupply(KingdomAndSupplyProperty),
    Type(TypeProperty),
    Name(NameProperty),
    Cost(CostProperty),
    CostAndType(CostAndTypeProperty),
    Note(NoteProperty),
    Either(EitherProperty),
    CardGroup(CardGroupProperty),
    OptionalExtra(OptionalExtraProperty),
    OtherInteraction(OtherInteractionProperty),
    MissingPotion(MissingPotionProperty),
    MissingGroupForKeyword(MissingGroupForKeywordProperty),
    MissingInteractingCardGroup(MissingInteractingCardGroupProperty),
    MissingInteractingCard(MissingInteractingCardProperty),
    Fail(FailProperty),
    RepeatedCost(RepeatedCostProperty),
    HangingInteractsWith(HangingInteractsWith),
    Keyword(KeywordProperty),
    KeywordInteraction(KeywordInteractionProperty),
    NeedProsperity(NeedProsperity),
}

/// Whether the property tests the whole draft rather than one pile.
pub open spec fn spec_is_selection_property(p: PropertyPtr) -> bool
    decreases p,
{
    match p {
        PropertyPtr::Note(_) => true,
        PropertyPtr::MissingPotion(_) => true,
        PropertyPtr::MissingGroupForKeyword(_) => true,
        PropertyPtr::MissingInteractingCardGroup(_) => true,
        PropertyPtr::MissingInteractingCard(_) => true,
        PropertyPtr::RepeatedCost(_) => true,
        PropertyPtr::HangingInteractsWith(_) => true,
        PropertyPtr::NeedProsperity(_) => true,
        PropertyPtr::Either(e) => spec_is_selection_property(*e.prop1)
            || spec_is_selection_property(*e.prop2),
        _ => false,
    }
}

/// The cost test: supply if demanded, and a cost in common.
pub open spec fn spec_cost_meets(p: CostProperty, pile: Pile) -> bool {
    &&& (p.supply_only ==> pile.supply)
    &&& (match p.single_cost {
        Some(c) => pile.costs@.contains(c),
        None => exists|c: Cost| pile.costs@.contains(c) && p.costs@.contains(c),
    })
}

/// Whether one pile, in isolation, meets the property.
pub open spec fn spec_pile_meets(p: PropertyPtr, pile: Pile) -> bool
    decreases p,
{
    match p {
        PropertyPtr::KingdomAndSupply(_) => pile.kingdom && pile.supply,
        PropertyPtr::Type(t) => (t.kingdom_and_supply ==> pile.kingdom && pile.supply)
            && pile.spec_has_type(t.card_type@),
        PropertyPtr::Name(n) => n.name@ == pile.name@,
        PropertyPtr::Cost(c) => spec_cost_meets(c, pile),
        PropertyPtr::CostAndType(ct) => spec_cost_meets(ct.cost_prop, pile) && (
        ct.type_prop.kingdom_and_supply ==> pile.kingdom && pile.supply)
            && pile.spec_has_type(ct.type_prop.card_type@),
        PropertyPtr::Either(e) => spec_pile_meets(*e.prop1, pile) || spec_pile_meets(
            *e.prop2,
            pile,
        ),
        PropertyPtr::CardGroup(g) => pile.card_group@ == g.group_name@,
        PropertyPtr::OptionalExtra(_) => !pile.supply && !pile.kingdom && (pile.spec_has_type(
            "Event"@,
        ) || pile.spec_has_type("Project"@) || pile.spec_has_type("Landmark"@)
            || pile.spec_has_type("Way"@)),
        PropertyPtr::OtherInteraction(o) => (o.kingdom_and_supply ==> pile.supply && pile.kingdom)
            && pile.spec_has_other_interaction(o.other_interact@),
        PropertyPtr::Keyword(k) => (k.kingdom_and_supply ==> pile.kingdom && pile.supply)
            && pile.spec_has_keyword(k.keyword@),
        PropertyPtr::KeywordInteraction(k) => pile.spec_has_kw_interaction(k.keyword@),
        _ => false,
    }
}

/// The catalog pile at position `i` of the draft's pile list.
pub open spec fn sel_pile_at(sel: SelectionState, col: CardColl, i: int) -> Pile {
    col.state.piles@[sel.piles@[i] as int]
}

/// Some cost of the pile has a potion component.
pub open spec fn pile_has_potion_cost(p: Pile) -> bool {
    exists|j: int| 0 <= j < p.costs@.len() && (#[trigger] p.costs@[j]).potion is Some
}

/// Some card of the pile has this name.
pub open spec fn pile_has_card_named(p: Pile, n: Seq<char>) -> bool {
    exists|j: int| 0 <= j < p.cards@.len() && (#[trigger] p.cards@[j]).name@ == n
}

/// Some type of the pile starts with the prefix.
pub open spec fn pile_has_type_prefixed(p: Pile, prefix: Seq<char>) -> bool {
    exists|j: int|
        0 <= j < p.types@.len() && spec_starts_with((#[trigger] p.types@[j])@, prefix)
}

/// Some `group(G)` interaction of the pile lacks its `addedG` note.
pub open spec fn pile_has_group_gap(p: Pile, notes: Seq<String>) -> bool {
    exists|j: int|
        {
            let istr = (#[trigger] p.other_interactions@[j])@;
            &&& 0 <= j < p.other_interactions@.len()
            &&& spec_starts_with(istr, "group("@)
            &&& !crate::cards::has_str(notes, "added"@ + istr.subrange(6, istr.len() - 1))
        }
}

/// Some chosen pile other than the Potion pile has a potion cost.
pub open spec fn spec_found_potion_cost(sel: SelectionState, col: CardColl) -> bool {
    exists|i: int|
        #![trigger sel_pile_at(sel, col, i)]
        0 <= i < sel.piles@.len() && sel_pile_at(sel, col, i).name@ != "Potion"@
            && pile_has_potion_cost(sel_pile_at(sel, col, i))
}

/// A pile of this name is among the chosen ones.
pub open spec fn spec_sel_has_pile_named(sel: SelectionState, col: CardColl, n: Seq<char>) -> bool {
    exists|i: int|
        #![trigger sel_pile_at(sel, col, i)]
        0 <= i < sel.piles@.len() && sel_pile_at(sel, col, i).name@ == n
}

/// A card of this name is among the chosen piles' cards.
pub open spec fn spec_sel_has_card_named(sel: SelectionState, col: CardColl, n: Seq<char>) -> bool {
    exists|i: int|
        #![trigger sel_pile_at(sel, col, i)]
        0 <= i < sel.piles@.len() && pile_has_card_named(sel_pile_at(sel, col, i), n)
}

/// The draft has a potion-costed pile but no Potion pile.
pub open spec fn spec_missing_potion(sel: SelectionState, col: CardColl) -> bool {
    spec_found_potion_cost(sel, col) && !spec_sel_has_pile_named(sel, col, "Potion"@)
}

/// Some chosen pile has a type starting with the prefix.
pub open spec fn spec_some_type_prefixed(sel: SelectionState, col: CardColl, prefix: Seq<char>) -> bool {
    exists|i: int|
        #![trigger sel_pile_at(sel, col, i)]
        0 <= i < sel.piles@.len() && pile_has_type_prefixed(sel_pile_at(sel, col, i), prefix)
}

/// Some chosen pile names a `group(G)` whose `addedG` note is absent.
pub open spec fn spec_missing_interacting_group(sel: SelectionState, col: CardColl) -> bool {
    exists|i: int|
        #![trigger sel_pile_at(sel, col, i)]
        0 <= i < sel.piles@.len() && pile_has_group_gap(sel_pile_at(sel, col, i), sel.notes@)
}

/// Some `card(X)` interaction of the pile names a card no chosen pile has.
pub open spec fn pile_has_card_gap(p: Pile, sel: SelectionState, col: CardColl) -> bool {
    exists|j: int|
        {
            let istr = (#[trigger] p.other_interactions@[j])@;
            &&& 0 <= j < p.other_interactions@.len()
            &&& spec_starts_with(istr, "card("@)
            &&& !spec_sel_has_card_named(sel, col, istr.subrange(5, istr.len() - 1))
        }
}

/// Some chosen pile names a `card(X)` that no chosen pile supplies.
pub open spec fn spec_missing_interacting_card(sel: SelectionState, col: CardColl) -> bool {
    exists|i: int|
        #![trigger sel_pile_at(sel, col, i)]
        0 <= i < sel.piles@.len() && pile_has_card_gap(sel_pile_at(sel, col, i), sel, col)
}

/// How many chosen piles carry this cost.
pub open spec fn spec_cost_occurrences(piles: Seq<usize>, col: CardColl, x: Cost) -> int
    decreases piles.len(),
{
    if piles.len() == 0 {
        0
    } else {
        spec_cost_occurrences(piles.drop_last(), col, x) + if piles.last()
            < col.state.piles@.len() && col.state.piles@[piles.last() as int].costs@.contains(x) {
            1int
        } else {
            0int
        }
    }
}

/// A cost of the supply occurs in more than `max_repeats` chosen piles.
pub open spec fn spec_repeated_cost(sel: SelectionState, col: CardColl, max_repeats: u64) -> bool {
    exists|x: Cost|
        #[trigger] sel.costs_in_supply@.contains(x) && spec_cost_occurrences(sel.piles@, col, x)
            > max_repeats as int
}

/// How many chosen piles belong to a group starting with `Prosperity`.
pub open spec fn spec_prosperity_count(piles: Seq<usize>, col: CardColl) -> int
    decreases piles.len(),
{
    if piles.len() == 0 {
        0
    } else {
        spec_prosperity_count(piles.drop_last(), col) + if piles.last() < col.state.piles@.len()
            && spec_starts_with(
            col.state.piles@[piles.last() as int].card_group@,
            "Prosperity"@,
        ) {
            1int
        } else {
            0int
        }
    }
}

/// The Prosperity test: exactly one of Colony and Platinum present, or
/// enough Prosperity piles to reach the threshold.
pub open spec fn spec_need_prosperity(sel: SelectionState, col: CardColl, threshold: u8) -> bool {
    match (spec_pile_for_card(col, "Colony"@), spec_pile_for_card(col, "Platinum"@)) {
        (Some(ci), Some(pi)) => {
            let has_col = sel.piles@.contains(ci as usize);
            let has_plat = sel.piles@.contains(pi as usize);
            if has_col && has_plat {
                false
            } else if has_col != has_plat {
                true
            } else {
                threshold > 0 && threshold as int <= spec_prosperity_count(sel.piles@, col)
            }
        },
        _ => false,
    }
}

/// Whether the whole draft meets the property.
pub open spec fn spec_selection_meets(p: PropertyPtr, sel: SelectionState, col: CardColl) -> bool
    decreases p,
{
    match p {
        PropertyPtr::Note(n) => sel.spec_has_note(n.text@),
        PropertyPtr::Either(e) => spec_selection_meets(*e.prop1, sel, col) || spec_selection_meets(
            *e.prop2,
            sel,
            col,
        ),
        PropertyPtr::MissingPotion(_) => spec_missing_potion(sel, col),
        PropertyPtr::MissingGroupForKeyword(m) => spec_some_type_prefixed(sel, col, m.type_needed@)
            && !sel.spec_has_note(m.note@),
        PropertyPtr::MissingInteractingCardGroup(_) => spec_missing_interacting_group(sel, col),
        PropertyPtr::MissingInteractingCard(_) => spec_missing_interacting_card(sel, col),
        PropertyPtr::RepeatedCost(r) => spec_repeated_cost(sel, col, r.max_repeats),
        PropertyPtr::HangingInteractsWith(h) => key_present(
            sel.interacts_keywords@,
            h.interacts_with@,
        ) && !key_present(sel.keywords@, h.kw@) && !key_present(sel.keywords@, h.alt_kw@),
        PropertyPtr::NeedProsperity(n) => spec_need_prosperity(sel, col, n.threshold),
        _ => false,
    }
}

/// Every chosen pile index is a catalog index.
pub open spec fn spec_sel_bounds(sel: SelectionState, col: CardColl) -> bool {
    forall|i: int| 0 <= i < sel.piles@.len() ==> #[trigger] sel.piles@[i] < col.state.piles@.len()
}

impl KingdomAndSupplyProperty {
    pub fn make_ptr() -> (r: PropertyPtr)
        ensures
            r == PropertyPtr::KingdomAndSupply(KingdomAndSupplyProperty {}),
    {
        PropertyPtr::KingdomAndSupply(KingdomAndSupplyProperty {})
    }
}

impl TypeProperty {
    pub fn make_ptr(has_type: &str, restrict_to_kingdom_and_supply: bool) -> (r: PropertyPtr)
        ensures
            r matches PropertyPtr::Type(t) && t.card_type@ == has_type@ && t.kingdom_and_supply
                == restrict_to_kingdom_and_supply,
    {
        PropertyPtr::Type(
            TypeProperty {
                card_type: has_type.to_owned(),
                kingdom_and_supply: restrict_to_kingdom_and_supply,
            },
        )
    }
}

impl NameProperty {
    pub fn make_ptr(name: &str) -> (r: PropertyPtr)
        ensures
            r matches PropertyPtr::Name(n) && n.name@ == name@,
    {
        PropertyPtr::Name(NameProperty { name: name.to_owned() })
    }
}

impl CostProperty {
    pub fn make_ptr_set(costs: CostSet, supply_only: bool) -> (r: PropertyPtr)
        ensures
            r matches PropertyPtr::Cost(c) && c.single_cost is None && c.costs@ == costs@
                && c.supply_only == supply_only,
    {
        PropertyPtr::Cost(CostProperty { single_cost: None, costs, supply_only })
    }
}

impl CostAndTypeProperty {
    pub fn make_ptr_set(card_type: String, cost: CostSet) -> (r: PropertyPtr)
        ensures
            r matches PropertyPtr::CostAndType(ct) && ct.cost_prop.single_cost is None
                && ct.cost_prop.costs@ == cost@ && ct.cost_prop.supply_only
                && ct.type_prop.card_type@ == card_type@ && ct.type_prop.kingdom_and_supply,
    {
        PropertyPtr::CostAndType(
            CostAndTypeProperty {
                cost_prop: CostProperty { single_cost: None, costs: cost, supply_only: true },
                type_prop: TypeProperty { card_type, kingdom_and_supply: true },
            },
        )
    }
}

impl NoteProperty {
    pub fn make_ptr(text: &str) -> (r: PropertyPtr)
        ensures
            r matches PropertyPtr::Note(n) && n.text@ == text@,
    {
        PropertyPtr::Note(NoteProperty { text: text.to_owned() })
    }
}

impl EitherProperty {
    pub fn make_ptr(prop1: PropertyPtr, prop2: PropertyPtr) -> (r: PropertyPtr)
        ensures
            r matches PropertyPtr::Either(e) && *e.prop1 == prop1 && *e.prop2 == prop2,
    {
        PropertyPtr::Either(EitherProperty { prop1: Box::new(prop1), prop2: Box::new(prop2) })
    }
}

impl CardGroupProperty {
    pub fn make_ptr(group_name: &str) -> (r: PropertyPtr)
        ensures
            r matches PropertyPtr::CardGroup(g) && g.group_name@ == group_name@,
    {
        PropertyPtr::CardGroup(CardGroupProperty { group_name: group_name.to_owned() })
    }
}

impl OptionalExtraProperty {
    pub fn make_ptr() -> (r: PropertyPtr)
        ensures
            r == PropertyPtr::OptionalExtra(OptionalExtraProperty {}),
    {
        PropertyPtr::OptionalExtra(OptionalExtraProperty {})
    }
}

impl OtherInteractionProperty {
    pub fn make_ptr(other_interact: &str, kingdom_and_supply: bool) -> (r: PropertyPtr)
        ensures
            r matches PropertyPtr::OtherInteraction(o) && o.other_interact@ == other_interact@
                && o.kingdom_and_supply == kingdom_and_supply,
    {
        PropertyPtr::OtherInteraction(
            OtherInteractionProperty {
                other_interact: other_interact.to_owned(),
                kingdom_and_supply,
            },
        )
    }
}

impl MissingPotionProperty {
    pub fn make_ptr() -> (r: PropertyPtr)
        ensures
            r == PropertyPtr::MissingPotion(MissingPotionProperty {}),
    {
        PropertyPtr::MissingPotion(MissingPotionProperty {})
    }
}

impl MissingGroupForKeywordProperty {
    pub fn make_ptr(type_needed: &str, group_needed: &str) -> (r: PropertyPtr)
        ensures
            r matches PropertyPtr::MissingGroupForKeyword(m) && m.type_needed@ == type_needed@
                && m.note@ == "added"@ + group_needed@,
    {
        let mut note = String::new();
        note = note.concat("added");
        note = note.concat(group_needed);
        proof {
            assert(note@ =~= "added"@ + group_needed@);
        }
        PropertyPtr::MissingGroupForKeyword(
            MissingGroupForKeywordProperty { type_needed: type_needed.to_owned(), note },
        )
    }
}

impl MissingInteractingCardGroupProperty {
    pub fn make_ptr() -> (r: PropertyPtr)
        ensures
            r == PropertyPtr::MissingInteractingCardGroup(MissingInteractingCardGroupProperty {}),
    {
        PropertyPtr::MissingInteractingCardGroup(MissingInteractingCardGroupProperty {})
    }
}

impl MissingInteractingCardProperty {
    pub fn make_ptr() -> (r: PropertyPtr)
        ensures
            r == PropertyPtr::MissingInteractingCard(MissingInteractingCardProperty {}),
    {
        PropertyPtr::MissingInteractingCard(MissingInteractingCardProperty {})
    }
}

impl FailProperty {
    pub fn make_ptr() -> (r: PropertyPtr)
        ensures
            r == PropertyPtr::Fail(FailProperty {}),
    {
        PropertyPtr::Fail(FailProperty {})
    }
}

impl RepeatedCostProperty {
    pub fn make_ptr(max_repeats: u64) -> (r: PropertyPtr)
        ensures
            r == PropertyPtr::RepeatedCost(RepeatedCostProperty { max_repeats }),
    {
        PropertyPtr::RepeatedCost(RepeatedCostProperty { max_repeats })
    }
}

impl HangingInteractsWith {
    pub fn make_ptr2(interacts_with: &str, kw: &str) -> (r: PropertyPtr)
        ensures
            r matches PropertyPtr::HangingInteractsWith(h) && h.interacts_with@ == interacts_with@
                && h.kw@ == kw@ && h.alt_kw@ == Seq::<char>::empty(),
    {
        PropertyPtr::HangingInteractsWith(
            HangingInteractsWith {
                interacts_with: interacts_with.to_owned(),
                kw: kw.to_owned(),
                alt_kw: String::new(),
            },
        )
    }

    pub fn make_ptr3(interacts_with: &str, kw: &str, alt_kw: &str) -> (r: PropertyPtr)
        ensures
            r matches PropertyPtr::HangingInteractsWith(h) && h.interacts_with@ == interacts_with@
                && h.kw@ == kw@ && h.alt_kw@ == alt_kw@,
    {
        PropertyPtr::HangingInteractsWith(
            HangingInteractsWith {
                interacts_with: interacts_with.to_owned(),
                kw: kw.to_owned(),
                alt_kw: alt_kw.to_owned(),
            },
        )
    }
}

impl KeywordProperty {
    pub fn make_ptr(keyword: &str, restrict_to_kingdom_and_supply: bool) -> (r: PropertyPtr)
        ensures
            r matches PropertyPtr::Keyword(k) && k.keyword@ == keyword@ && k.kingdom_and_supply
                == restrict_to_kingdom_and_supply,
    {
        PropertyPtr::Keyword(
            KeywordProperty {
                keyword: keyword.to_owned(),
                kingdom_and_supply: restrict_to_kingdom_and_supply,
            },
        )
    }
}

impl NeedProsperity {
    pub fn make_ptr(threshold: u8) -> (r: PropertyPtr)
        ensures
            r == PropertyPtr::NeedProsperity(NeedProsperity { threshold }),
    {
        PropertyPtr::NeedProsperity(NeedProsperity { threshold })
    }
}

impl PropertyPtr {
    pub fn is_selection_property(&self) -> (r: bool)
        ensures
            r == spec_is_selection_property(*self),
        decreases *self,
    {
        match self {
            PropertyPtr::Note(_) => true,
            PropertyPtr::MissingPotion(_) => true,
            PropertyPtr::MissingGroupForKeyword(_) => true,
            PropertyPtr::MissingInteractingCardGroup(_) => true,
            PropertyPtr::MissingInteractingCard(_) => true,
            PropertyPtr::RepeatedCost(_) => true,
            PropertyPtr::HangingInteractsWith(_) => true,
            PropertyPtr::NeedProsperity(_) => true,
            PropertyPtr::Either(e) => e.prop1.is_selection_property()
                || e.prop2.is_selection_property(),
            _ => false,
        }
    }

    /// Whether the given pile meets this property on its own.
    pub fn pile_meets(&self, pile: &Pile) -> (r: bool)
        ensures
            r == spec_pile_meets(*self, *pile),
        decreases *self,
    {
        match self {
            PropertyPtr::KingdomAndSupply(_) => pile.kingdom && pile.supply,
            PropertyPtr::Type(t) => {
                if t.kingdom_and_supply && (!pile.kingdom || !pile.supply) {
                    false
                } else {
                    crate::cards::contains_str(&pile.types, t.card_type.as_str())
                }
            },
            PropertyPtr::Name(n) => str_eq(n.name.as_str(), pile.name.as_str()),
            PropertyPtr::Cost(c) => c.cost_meets(pile),
            PropertyPtr::CostAndType(ct) => {
                if !ct.cost_prop.cost_meets(pile) {
                    false
                } else if ct.type_prop.kingdom_and_supply && (!pile.kingdom || !pile.supply) {
                    false
                } else {
                    crate::cards::contains_str(&pile.types, ct.type_prop.card_type.as_str())
                }
            },
            PropertyPtr::Either(e) => e.prop1.pile_meets(pile) || e.prop2.pile_meets(pile),
            PropertyPtr::CardGroup(g) => str_eq(pile.card_group.as_str(), g.group_name.as_str()),
            PropertyPtr::OptionalExtra(_) => {
                !pile.supply && !pile.kingdom && (crate::cards::contains_str(&pile.types, "Event")
                    || crate::cards::contains_str(&pile.types, "Project")
                    || crate::cards::contains_str(&pile.types, "Landmark")
                    || crate::cards::contains_str(&pile.types, "Way"))
            },
            PropertyPtr::OtherInteraction(o) => {
                if o.kingdom_and_supply && (!pile.supply || !pile.kingdom) {
                    false
                } else {
                    crate::cards::contains_str(&pile.other_interactions, o.other_interact.as_str())
                }
            },
            PropertyPtr::Keyword(k) => {
                if k.kingdom_and_supply && (!pile.kingdom || !pile.supply) {
                    false
                } else {
                    crate::cards::contains_str(&pile.keywords, k.keyword.as_str())
                }
            },
            PropertyPtr::KeywordInteraction(k) => crate::cards::contains_str(
                &pile.kw_interactions,
                k.keyword.as_str(),
            ),
            _ => false,
        }
    }
}

impl CostProperty {
    fn cost_meets(&self, pile: &Pile) -> (r: bool)
        ensures
            r == spec_cost_meets(*self, *pile),
    {
        if self.supply_only && !pile.supply {
            return false;
        }
        match &self.single_cost {
            Some(c) => pile.costs.contains(c),
            None => Cost::intersects(&pile.costs, &self.costs),
        }
    }
}


/// Whether a card of this name is among the chosen piles' cards.
fn sel_has_card(sel: &SelectionState, col: &CardColl, name: &str) -> (r: bool)
    requires
        spec_sel_bounds(*sel, *col),
    ensures
        r == spec_sel_has_card_named(*sel, *col, name@),
{
    let n = sel.piles.len();
    let mut i: usize = 0;
    while i < n
        invariant
            0 <= i <= n,
            n == sel.piles@.len(),
            spec_sel_bounds(*sel, *col),
            forall|a: int|
                0 <= a < i ==> !pile_has_card_named(#[trigger] sel_pile_at(*sel, *col, a), name@),
        decreases n - i,
    {
        let idx = sel.piles[i];
        let pile = &col.state.piles[idx];
        let m = pile.cards.len();
        let mut j: usize = 0;
        while j < m
            invariant
                0 <= j <= m,
                0 <= i < n,
                n == sel.piles@.len(),
                spec_sel_bounds(*sel, *col),
                idx == sel.piles@[i as int],
                idx < col.state.piles@.len(),
                pile == &col.state.piles@[idx as int],
                m == pile.cards@.len(),
                forall|b: int| 0 <= b < j ==> (#[trigger] pile.cards@[b]).name@ != name@,
            decreases m - j,
        {
            if crate::strutil::str_eq(pile.cards[j].name.as_str(), name) {
                proof {
                    assert(pile_has_card_named(sel_pile_at(*sel, *col, i as int), name@)) by {
                        assert((sel_pile_at(*sel, *col, i as int).cards@[j as int]).name@ == name@);
                    }
                }
                return true;
            }
            j += 1;
        }
        proof {
            assert(!pile_has_card_named(sel_pile_at(*sel, *col, i as int), name@));
        }
        i += 1;
    }
    false
}

impl PropertyPtr {
    /// Whether the whole draft meets this property.
    pub fn selection_meets(&self, s: &SelectionPtr, col: &CardColl) -> (r: bool)
        requires
            spec_sel_bounds(s.state, *col),
            spec_piles_wf(col.state.piles@),
        ensures
            r == spec_selection_meets(*self, s.state, *col),
        decreases *self,
    {
        let sel = &s.state;
        match self {
            PropertyPtr::Note(n) => s.has_note(n.text.as_str()),
            PropertyPtr::Either(e) => e.prop1.selection_meets(s, col) || e.prop2.selection_meets(
                s,
                col,
            ),
            PropertyPtr::MissingPotion(_) => {
                let n = sel.piles.len();
                let mut found = false;
                let mut have_potion = false;
                let mut i: usize = 0;
                while i < n
                    invariant
                        0 <= i <= n,
                        sel == &s.state,
                        n == sel.piles@.len(),
                        spec_sel_bounds(*sel, *col),
                        have_potion == exists|a: int|
                            #![trigger sel_pile_at(*sel, *col, a)]
                            0 <= a < i && sel_pile_at(*sel, *col, a).name@ == "Potion"@,
                        found == exists|a: int|
                            #![trigger sel_pile_at(*sel, *col, a)]
                            0 <= a < i && sel_pile_at(*sel, *col, a).name@ != "Potion"@
                                && pile_has_potion_cost(sel_pile_at(*sel, *col, a)),
                    decreases n - i,
                {
                    let idx = sel.piles[i];
                    let pile = &col.state.piles[idx];
                    if crate::strutil::str_eq(pile.name.as_str(), "Potion") {
                        have_potion = true;
                        proof {
                            assert(sel_pile_at(*sel, *col, i as int).name@ == "Potion"@);
                        }
                        i += 1;
                        continue ;
                    }
                    let m = pile.costs.len();
                    let mut j: usize = 0;
                    let mut this_found = false;
                    while j < m && !this_found
                        invariant
                            0 <= j <= m,
                            sel == &s.state,
                            0 <= i < n,
                            idx == sel.piles@[i as int],
                            idx < col.state.piles@.len(),
                            pile == &col.state.piles@[idx as int],
                            m == pile.costs@.len(),
                            this_found ==> pile_has_potion_cost(*pile),
                            !this_found ==> forall|b: int|
                                0 <= b < j ==> (#[trigger] pile.costs@[b]).potion is None,
                        decreases m - j, (if this_found {
                            0int
                        } else {
                            1int
                        }),
                    {
                        if pile.costs.index(j).has_potion() {
                            this_found = true;
                            proof {
                                assert((pile.costs@[j as int]).potion is Some);
                            }
                        } else {
                            j += 1;
                        }
                    }
                    proof {
                        if !this_found {
                            assert(!pile_has_potion_cost(sel_pile_at(*sel, *col, i as int)));
                        } else {
                            assert(pile_has_potion_cost(sel_pile_at(*sel, *col, i as int)));
                        }
                    }
                    if this_found {
                        found = true;
                    }
                    i += 1;
                }
                found && !have_potion
            },
            PropertyPtr::MissingGroupForKeyword(m) => {
                if s.has_note(m.note.as_str()) {
                    false
                } else {
                    let n = sel.piles.len();
                    let mut i: usize = 0;
                    while i < n
                        invariant
                            0 <= i <= n,
                            sel == &s.state,
                        *self == PropertyPtr::MissingGroupForKeyword(*m),
                            n == sel.piles@.len(),
                            spec_sel_bounds(*sel, *col),
                            !s.state.spec_has_note(m.note@),
                            forall|a: int|
                                0 <= a < i ==> !pile_has_type_prefixed(
                                    #[trigger] sel_pile_at(*sel, *col, a),
                                    m.type_needed@,
                                ),
                        decreases n - i,
                    {
                        let idx = sel.piles[i];
                        let pile = &col.state.piles[idx];
                        let tn = pile.types.len();
                        let mut j: usize = 0;
                        while j < tn
                            invariant
                                0 <= j <= tn,
                                sel == &s.state,
                        *self == PropertyPtr::MissingGroupForKeyword(*m),
                                !s.state.spec_has_note(m.note@),
                                0 <= i < n,
                                n == sel.piles@.len(),
                                spec_sel_bounds(*sel, *col),
                                idx == sel.piles@[i as int],
                                idx < col.state.piles@.len(),
                                pile == &col.state.piles@[idx as int],
                                tn == pile.types@.len(),
                                forall|b: int|
                                    0 <= b < j ==> !spec_starts_with(
                                        (#[trigger] pile.types@[b])@,
                                        m.type_needed@,
                                    ),
                            decreases tn - j,
                        {
                            if starts_with(pile.types[j].as_str(), m.type_needed.as_str()) {
                                proof {
                                    assert(pile_has_type_prefixed(
                                        sel_pile_at(s.state, *col, i as int),
                                        m.type_needed@,
                                    )) by {
                                        assert(spec_starts_with(
                                            (sel_pile_at(s.state, *col, i as int).types@[j as int])@,
                                            m.type_needed@,
                                        ));
                                    }
                                    assert(spec_some_type_prefixed(s.state, *col, m.type_needed@));
                                    assert(!s.state.spec_has_note(m.note@));
                                }
                                return true;
                            }
                            j += 1;
                        }
                        proof {
                            assert(!pile_has_type_prefixed(
                                sel_pile_at(*sel, *col, i as int),
                                m.type_needed@,
                            ));
                        }
                        i += 1;
                    }
                    false
                }
            },
            PropertyPtr::MissingInteractingCardGroup(_) => {
                let n = sel.piles.len();
                let mut i: usize = 0;
                while i < n
                    invariant
                        0 <= i <= n,
                        sel == &s.state,
                        self matches PropertyPtr::MissingInteractingCardGroup(_),
                        n == sel.piles@.len(),
                        spec_sel_bounds(*sel, *col),
                        spec_piles_wf(col.state.piles@),
                        forall|a: int|
                            0 <= a < i ==> !pile_has_group_gap(
                                #[trigger] sel_pile_at(*sel, *col, a),
                                sel.notes@,
                            ),
                    decreases n - i,
                {
                    let idx = sel.piles[i];
                    let pile = &col.state.piles[idx];
                    let on = pile.other_interactions.len();
                    let mut j: usize = 0;
                    while j < on
                        invariant
                            0 <= j <= on,
                            sel == &s.state,
                        self matches PropertyPtr::MissingInteractingCardGroup(_),
                            0 <= i < n,
                            n == sel.piles@.len(),
                            spec_sel_bounds(*sel, *col),
                            idx == sel.piles@[i as int],
                            idx < col.state.piles@.len(),
                            pile == &col.state.piles@[idx as int],
                            pile.wf(),
                            on == pile.other_interactions@.len(),
                            forall|b: int|
                                !({
                                    let istr = (#[trigger] pile.other_interactions@[b])@;
                                    &&& 0 <= b < j
                                    &&& spec_starts_with(istr, "group("@)
                                    &&& !crate::cards::has_str(
                                        sel.notes@,
                                        "added"@ + istr.subrange(6, istr.len() - 1),
                                    )
                                }),
                        decreases on - j,
                    {
                        let it = &pile.other_interactions[j];
                        if starts_with(it.as_str(), "group(") {
                            let slen = it.as_str().unicode_len();
                            proof {
                                reveal_strlit("group(");
                                assert(it@.subrange(0, 6) == "group("@);
                                assert(it@[5] == it@.subrange(0, 6)[5]);
                                assert(it@.contains('(')) by {
                                    assert(it@[5] == '(');
                                }
                                assert(it@.len() > 0 && it@.last() == ')');
                                if slen == 6 {
                                    assert(it@[5] == ')');
                                }
                                assert(slen >= 7);
                            }
                            let inner = it.as_str().substring_char(6, slen - 1);
                            let mut note = String::new();
                            note = note.concat("added");
                            note = note.concat(inner);
                            proof {
                                assert(note@ =~= "added"@ + it@.subrange(6, it@.len() - 1));
                            }
                            if !s.has_note(note.as_str()) {
                                proof {
                                    let istr = (pile.other_interactions@[j as int])@;
                                    assert(istr == it@);
                                    assert(note@ == "added"@ + istr.subrange(6, istr.len() - 1));
                                    assert(!s.state.spec_has_note(note@));
                                    assert(!crate::cards::has_str(s.state.notes@, note@));
                                    assert(!crate::cards::has_str(sel.notes@, note@));
                                    assert(!crate::cards::has_str(
                                        sel.notes@,
                                        "added"@ + istr.subrange(6, istr.len() - 1),
                                    ));
                                    assert(pile_has_group_gap(
                                        sel_pile_at(s.state, *col, i as int),
                                        s.state.notes@,
                                    ));
                                    assert(spec_missing_interacting_group(s.state, *col));
                                }
                                return true;
                            }
                            proof {
                                let istr = (pile.other_interactions@[j as int])@;
                                assert(crate::cards::has_str(
                                    sel.notes@,
                                    "added"@ + istr.subrange(6, istr.len() - 1),
                                ));
                            }
                        }
                        j += 1;
                    }
                    proof {
                        assert(!pile_has_group_gap(sel_pile_at(*sel, *col, i as int), sel.notes@));
                    }
                    i += 1;
                }
                false
            },
            PropertyPtr::MissingInteractingCard(_) => {
                let n = sel.piles.len();
                let mut i: usize = 0;
                while i < n
                    invariant
                        0 <= i <= n,
                        sel == &s.state,
                        self matches PropertyPtr::MissingInteractingCard(_),
                        n == sel.piles@.len(),
                        spec_sel_bounds(*sel, *col),
                        spec_piles_wf(col.state.piles@),
                        forall|a: int|
                            0 <= a < i ==> !pile_has_card_gap(
                                #[trigger] sel_pile_at(*sel, *col, a),
                                *sel,
                                *col,
                            ),
                    decreases n - i,
                {
                    let idx = sel.piles[i];
                    let pile = &col.state.piles[idx];
                    let on = pile.other_interactions.len();
                    let mut j: usize = 0;
                    while j < on
                        invariant
                            0 <= j <= on,
                            sel == &s.state,
                        self matches PropertyPtr::MissingInteractingCard(_),
                            0 <= i < n,
                            n == sel.piles@.len(),
                            spec_sel_bounds(*sel, *col),
                            idx == sel.piles@[i as int],
                            idx < col.state.piles@.len(),
                            pile == &col.state.piles@[idx as int],
                            pile.wf(),
                            on == pile.other_interactions@.len(),
                            forall|b: int|
                                !({
                                    let istr = (#[trigger] pile.other_interactions@[b])@;
                                    &&& 0 <= b < j
                                    &&& spec_starts_with(istr, "card("@)
                                    &&& !spec_sel_has_card_named(
                                        *sel,
                                        *col,
                                        istr.subrange(5, istr.len() - 1),
                                    )
                                }),
                        decreases on - j,
                    {
                        let it = &pile.other_interactions[j];
                        if starts_with(it.as_str(), "card(") {
                            let slen = it.as_str().unicode_len();
                            proof {
                                reveal_strlit("card(");
                                assert(it@.subrange(0, 5) == "card("@);
                                assert(it@[4] == it@.subrange(0, 5)[4]);
                                assert(it@.contains('(')) by {
                                    assert(it@[4] == '(');
                                }
                                assert(it@.len() > 0 && it@.last() == ')');
                                if slen == 5 {
                                    assert(it@[4] == ')');
                                }
                                assert(slen >= 6);
                            }
                            let inner = it.as_str().substring_char(5, slen - 1);
                            let present = sel_has_card(sel, col, inner);
                            proof {
                                let istr = (pile.other_interactions@[j as int])@;
                                assert(istr == it@);
                                assert(inner@ == istr.subrange(5, istr.len() - 1));
                            }
                            if !present {
                                proof {
                                    let istr = (pile.other_interactions@[j as int])@;
                                    assert(!spec_sel_has_card_named(
                                        *sel,
                                        *col,
                                        istr.subrange(5, istr.len() - 1),
                                    ));
                                    assert(pile_has_card_gap(
                                        sel_pile_at(s.state, *col, i as int),
                                        s.state,
                                        *col,
                                    ));
                                    assert(spec_missing_interacting_card(s.state, *col));
                                }
                                return true;
                            }
                        }
                        j += 1;
                    }
                    proof {
                        assert(!pile_has_card_gap(sel_pile_at(*sel, *col, i as int), *sel, *col));
                    }
                    i += 1;
                }
                false
            },
            PropertyPtr::RepeatedCost(rc) => {
                let n = sel.costs_in_supply.len();
                let mut i: usize = 0;
                while i < n
                    invariant
                        0 <= i <= n,
                        sel == &s.state,
                        *self == PropertyPtr::RepeatedCost(*rc),
                        n == sel.costs_in_supply@.len(),
                        spec_sel_bounds(*sel, *col),
                        forall|a: int|
                            0 <= a < i ==> spec_cost_occurrences(
                                sel.piles@,
                                *col,
                                #[trigger] sel.costs_in_supply@[a],
                            ) <= rc.max_repeats as int,
                    decreases n - i,
                {
                    let x = sel.costs_in_supply.index(i);
                    let pn = sel.piles.len();
                    let mut k: usize = 0;
                    let mut count: u64 = 0;
                    while k < pn
                        invariant
                            0 <= k <= pn,
                            sel == &s.state,
                        *self == PropertyPtr::RepeatedCost(*rc),
                            pn == sel.piles@.len(),
                            spec_sel_bounds(*sel, *col),
                            x == sel.costs_in_supply@[i as int],
                            0 <= i < n,
                            n == sel.costs_in_supply@.len(),
                            count as int == spec_cost_occurrences(
                                sel.piles@.subrange(0, k as int),
                                *col,
                                x,
                            ),
                            count <= k,
                        decreases pn - k,
                    {
                        proof {
                            assert(sel.piles@.subrange(0, k + 1).drop_last() =~= sel.piles@.subrange(
                                0,
                                k as int,
                            ));
                        }
                        let idx = sel.piles[k];
                        if col.state.piles[idx].costs.contains(&x) {
                            count += 1;
                        }
                        k += 1;
                    }
                    proof {
                        assert(sel.piles@.subrange(0, pn as int) =~= sel.piles@);
                    }
                    if count > rc.max_repeats {
                        proof {
                            assert(s.state.costs_in_supply@.contains(
                                s.state.costs_in_supply@[i as int],
                            ));
                            assert(spec_cost_occurrences(
                                s.state.piles@,
                                *col,
                                s.state.costs_in_supply@[i as int],
                            ) > rc.max_repeats as int);
                            assert(spec_repeated_cost(s.state, *col, rc.max_repeats));
                        }
                        return true;
                    }
                    i += 1;
                }
                proof {
                    if spec_repeated_cost(s.state, *col, rc.max_repeats) {
                        let x = choose|x: Cost|
                            #[trigger] sel.costs_in_supply@.contains(x) && spec_cost_occurrences(
                                sel.piles@,
                                *col,
                                x,
                            ) > rc.max_repeats as int;
                        let a = choose|a: int|
                            0 <= a < sel.costs_in_supply@.len() && sel.costs_in_supply@[a] == x;
                        assert(spec_cost_occurrences(sel.piles@, *col, sel.costs_in_supply@[a])
                            > rc.max_repeats as int);
                    }
                }
                false
            },
            PropertyPtr::HangingInteractsWith(h) => {
                if !crate::selection::assoc_contains_key(
                    &sel.interacts_keywords,
                    h.interacts_with.as_str(),
                ) {
                    false
                } else if crate::selection::assoc_contains_key(&sel.keywords, h.kw.as_str()) {
                    false
                } else if crate::selection::assoc_contains_key(&sel.keywords, h.alt_kw.as_str()) {
                    false
                } else {
                    true
                }
            },
            PropertyPtr::NeedProsperity(np) => {
                let colony = match col.get_pile_for_card("Colony") {
                    Some(m) => m,
                    None => {
                        return false;
                    },
                };
                let platinum = match col.get_pile_for_card("Platinum") {
                    Some(m) => m,
                    None => {
                        return false;
                    },
                };
                let has_col = sel.contains(colony);
                let has_plat = sel.contains(platinum);
                if has_col && has_plat {
                    return false;
                }
                if has_col != has_plat {
                    return true;
                }
                let pn = sel.piles.len();
                let mut k: usize = 0;
                let mut total: u64 = 0;
                while k < pn
                    invariant
                        0 <= k <= pn,
                        sel == &s.state,
                        pn == sel.piles@.len(),
                        spec_sel_bounds(*sel, *col),
                        total as int == spec_prosperity_count(
                            sel.piles@.subrange(0, k as int),
                            *col,
                        ),
                        total <= k,
                    decreases pn - k,
                {
                    proof {
                        assert(sel.piles@.subrange(0, k + 1).drop_last() =~= sel.piles@.subrange(
                            0,
                            k as int,
                        ));
                    }
                    let idx = sel.piles[k];
                    if starts_with(col.state.piles[idx].card_group.as_str(), "Prosperity") {
                        total += 1;
                    }
                    k += 1;
                }
                proof {
                    assert(sel.piles@.subrange(0, pn as int) =~= sel.piles@);
                }
                np.threshold > 0 && np.threshold as u64 <= total
            },
            _ => {
                proof {
                    assert(!spec_selection_meets(*self, s.state, *col));
                }
                false
            },
        }
    }
}

} // verus!
