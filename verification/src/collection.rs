//! The catalog: a collection of piles listed in (group, name) order, with
//! lookups from properties to the piles that match them, the biased
//! shuffle, and reference validation.

use vstd::prelude::*;
use vstd::multiset::Multiset;

use crate::bad_rand::BadRand;
use crate::constraints::{cons_wf, seq_prefix, spec_build_ok, spec_status, ConsResult, Constraint};
use crate::costs::{Cost, CostSet, CostVotes};
use crate::piles::{pile_le, Pile};
use crate::properties::{spec_is_selection_property, CardGroupProperty, PropertyPtr};
use crate::selection::{has_tag, lemma_add_pile_wf, SelectionPtr, SelectionState};
use crate::strutil::{starts_with, str_eq};

verus! {

broadcast use vstd::seq_lib::group_to_multiset_ensures;

/// A frozen cursor over a list of catalog pile indices.
pub struct CollectionIterator {
    pub list: Vec<usize>,
    pub index: usize,
}

impl Clone for CollectionIterator {
    fn clone(&self) -> (r: Self)
        ensures
            r.list@ == self.list@,
            r.index == self.index,
    {
        let mut list: Vec<usize> = Vec::new();
        let n = self.list.len();
        let mut i: usize = 0;
        while i < n
            invariant
                0 <= i <= n,
                n == self.list@.len(),
                list@ == self.list@.subrange(0, i as int),
            decreases n - i,
        {
            list.push(self.list[i]);
            proof {
                assert(list@ =~= self.list@.subrange(0, i + 1));
            }
            i += 1;
        }
        proof {
            assert(list@ =~= self.list@);
        }
        CollectionIterator { list, index: self.index }
    }
}

impl CollectionIterator {
    /// The next pile index, advancing the cursor.
    pub fn next(&mut self) -> (r: Option<usize>)
        ensures
            final(self).list == old(self).list,
            old(self).index < old(self).list@.len() ==> {
                &&& r == Some(old(self).list@[old(self).index as int])
                &&& final(self).index == old(self).index + 1
            },
            old(self).index >= old(self).list@.len() ==> {
                &&& r is None
                &&& final(self).index == old(self).index
            },
    {
        if self.index < self.list.len() {
            let v = self.list[self.index];
            self.index = self.index + 1;
            Some(v)
        } else {
            None
        }
    }
}

/// Swap two entries of a pile list.
fn vec_swap_piles(v: &mut Vec<Pile>, a: usize, b: usize)
    requires
        a < old(v)@.len(),
        b < old(v)@.len(),
    ensures
        final(v)@ == old(v)@.update(a as int, old(v)@[b as int]).update(b as int, old(v)@[a as int]),
{
    if a == b {
        proof {
            assert(v@ =~= old(v)@.update(a as int, old(v)@[b as int]).update(
                b as int,
                old(v)@[a as int],
            ));
        }
        return ;
    }
    let (lo, hi) = if a < b {
        (a, b)
    } else {
        (b, a)
    };
    let x = v.remove(hi);
    let y = v.remove(lo);
    v.insert(lo, x);
    v.insert(hi, y);
    proof {
        assert(v@ =~= old(v)@.update(a as int, old(v)@[b as int]).update(
            b as int,
            old(v)@[a as int],
        ));
    }
}

/// Move every pile of `v` onto the end of `r`, in order.
fn append_all_piles(r: &mut Vec<Pile>, v: Vec<Pile>)
    ensures
        final(r)@ == old(r)@ + v@,
{
    let ghost gv = v@;
    let mut v = v;
    let ghost mut moved: int = 0;
    while v.len() > 0
        invariant
            0 <= moved,
            moved + v@.len() == gv.len(),
            v@ == gv.subrange(moved, gv.len() as int),
            r@ == old(r)@ + gv.subrange(0, moved),
        decreases v@.len(),
    {
        let ghost prev = v@;
        let x = v.remove(0);
        r.push(x);
        proof {
            assert(v@ =~= gv.subrange(moved + 1, gv.len() as int));
            assert(r@ =~= old(r)@ + gv.subrange(0, moved + 1));
            moved = moved + 1;
        }
    }
    proof {
        assert(gv.subrange(0, gv.len() as int) =~= gv);
        assert(r@ =~= old(r)@ + gv);
    }
}

/// The piles stand in (group, name) order.
pub open spec fn spec_piles_sorted(s: Seq<Pile>) -> bool {
    forall|i: int, j: int|
        0 <= i < j < s.len() ==> crate::piles::spec_pile_le(#[trigger] s[i], #[trigger] s[j])
}

/// Place `x` before the first entry it does not sort after.
fn insert_sorted_pile(x: Pile, v: Vec<Pile>) -> (r: Vec<Pile>)
    ensures
        r@.to_multiset() == v@.to_multiset().insert(x),
        spec_piles_sorted(v@) ==> spec_piles_sorted(r@),
    decreases v@.len(),
{
    let ghost gv = v@;
    let mut v = v;
    if v.len() == 0 {
        let mut r: Vec<Pile> = Vec::new();
        r.push(x);
        proof {
            assert(r@ =~= Seq::<Pile>::empty().push(x));
            assert(Seq::<Pile>::empty().push(x).to_multiset() =~= gv.to_multiset().insert(x));
        }
        r
    } else if pile_le(&x, &v[0]) {
        let mut r: Vec<Pile> = Vec::new();
        r.push(x);
        append_all_piles(&mut r, v);
        proof {
            assert(r@ =~= seq![x] + gv);
            lemma_multiset_cons(x, gv);
            if spec_piles_sorted(gv) {
                assert forall|i: int, j: int|
                    0 <= i < j < r@.len() implies crate::piles::spec_pile_le(
                    #[trigger] r@[i],
                    #[trigger] r@[j],
                ) by {
                    if i == 0 {
                        assert(r@[j] == gv[j - 1]);
                        if j - 1 > 0 {
                            assert(crate::piles::spec_pile_le(gv[0], gv[j - 1]));
                            crate::piles::lemma_pile_le_trans(x, gv[0], gv[j - 1]);
                        }
                    } else {
                        assert(r@[i] == gv[i - 1] && r@[j] == gv[j - 1]);
                    }
                }
            }
        }
        r
    } else {
        let first = v.remove(0);
        proof {
            assert(v@ =~= gv.drop_first());
            if spec_piles_sorted(gv) {
                assert forall|i: int, j: int|
                    0 <= i < j < gv.drop_first().len() implies crate::piles::spec_pile_le(
                    #[trigger] gv.drop_first()[i],
                    #[trigger] gv.drop_first()[j],
                ) by {
                    assert(gv.drop_first()[i] == gv[i + 1]);
                    assert(gv.drop_first()[j] == gv[j + 1]);
                }
            }
        }
        let rest = insert_sorted_pile(x, v);
        let mut r: Vec<Pile> = Vec::new();
        r.push(first);
        let ghost grest = rest@;
        append_all_piles(&mut r, rest);
        proof {
            assert(r@ =~= seq![first] + grest);
            lemma_multiset_cons(first, grest);
            lemma_multiset_cons(first, gv.drop_first());
            assert(gv =~= seq![first] + gv.drop_first());
            assert(r@.to_multiset() =~= gv.to_multiset().insert(x));
            if spec_piles_sorted(gv) {
                assert(spec_piles_sorted(grest));
                crate::piles::lemma_pile_le_total(x, first);
                assert(crate::piles::spec_pile_le(first, x));
                assert forall|m: int|
                    0 <= m < grest.len() implies crate::piles::spec_pile_le(
                    first,
                    #[trigger] grest[m],
                ) by {
                    let e = grest[m];
                    assert(grest.contains(e));
                    assert(grest.to_multiset().contains(e));
                    if e == x {
                    } else {
                        assert(grest.to_multiset().count(e) == gv.drop_first().to_multiset().insert(
                            x,
                        ).count(e));
                        assert(gv.drop_first().to_multiset().count(e) > 0);
                        assert(gv.drop_first().contains(e));
                        let i2 = choose|i2: int|
                            0 <= i2 < gv.drop_first().len() && gv.drop_first()[i2] == e;
                        assert(gv.drop_first()[i2] == gv[i2 + 1]);
                        assert(crate::piles::spec_pile_le(gv[0], gv[i2 + 1]));
                    }
                }
                assert forall|i: int, j: int|
                    0 <= i < j < r@.len() implies crate::piles::spec_pile_le(
                    #[trigger] r@[i],
                    #[trigger] r@[j],
                ) by {
                    if i == 0 {
                        assert(r@[j] == grest[j - 1]);
                    } else {
                        assert(r@[i] == grest[i - 1] && r@[j] == grest[j - 1]);
                    }
                }
            }
        }
        r
    }
}

proof fn lemma_multiset_cons(x: Pile, s: Seq<Pile>)
    ensures
        (seq![x] + s).to_multiset() == s.to_multiset().insert(x),
{
    let whole = seq![x] + s;
    assert(whole[0] == x);
    assert(whole.contains(x));
    assert(whole.remove(0) =~= s);
    assert(s.to_multiset() == whole.to_multiset().remove(x));
    assert(whole.to_multiset().count(x) > 0);
    assert(s.to_multiset().insert(x) =~= whole.to_multiset());
}

/// Sort piles into (group, name) order by insertion.
pub fn sort_piles(v: Vec<Pile>) -> (r: Vec<Pile>)
    ensures
        r@.to_multiset() == v@.to_multiset(),
        spec_piles_sorted(r@),
    decreases v@.len(),
{
    let ghost gv = v@;
    let mut v = v;
    if v.len() == 0 {
        let r: Vec<Pile> = Vec::new();
        proof {
            assert(r@ =~= gv);
        }
        r
    } else {
        let first = v.remove(0);
        proof {
            assert(v@ =~= gv.drop_first());
        }
        let rest = sort_piles(v);
        let r = insert_sorted_pile(first, rest);
        proof {
            lemma_multiset_cons(first, gv.drop_first());
            assert(gv =~= seq![first] + gv.drop_first());
        }
        r
    }
}

/// Every pile of the catalog is well formed.
pub open spec fn spec_piles_wf(piles: Seq<Pile>) -> bool {
    forall|i: int| 0 <= i < piles.len() ==> (#[trigger] piles[i]).wf()
}

/// The seed after one draw of the biased generator.
pub open spec fn spec_rand_next(seed: nat, step: nat, cap: nat) -> nat {
    if cap == 0 {
        seed
    } else {
        (seed + step) % cap
    }
}

/// The two slots exchanged.
pub open spec fn spec_swap_piles_at(s: Seq<Pile>, a: int, b: int) -> Seq<Pile> {
    s.update(a, s[b]).update(b, s[a])
}

/// The pile order and generator seed after `t` draws of the three-pass
/// shuffle walk: draw number `t` (counting from one) swaps the slot
/// `(t - 1) % len` with the slot the drawn value picks modulo `len`.
pub open spec fn spec_shuffle_upto(piles: Seq<Pile>, seed: nat, step: nat, cap: nat, t: nat) -> (
    Seq<Pile>,
    nat,
)
    decreases t,
{
    if t == 0 || piles.len() == 0 {
        (piles, seed)
    } else {
        let (p, sd) = spec_shuffle_upto(piles, seed, step, cap, (t - 1) as nat);
        let s2 = spec_rand_next(sd, step, cap);
        let v: nat = if cap == 0 {
            0
        } else {
            s2
        };
        let slot = ((t - 1) as nat) % piles.len();
        (spec_swap_piles_at(p, (v % p.len()) as int, slot as int), s2)
    }
}

/// The fixed data the search works over.
pub struct CollectionState {
    pub legal_costs: CostSet,
    pub card_names: Vec<String>,
    pub group_names: Vec<String>,
    pub general_property: PropertyPtr,
    pub piles: Vec<Pile>,
}

/// A handle to the catalog.
pub struct CardColl {
    pub state: CollectionState,
}

pub type CardCollectionPtr = CardColl;

/// The outcome of catalog validation.
pub enum CollectionStatus {
    CollOK,
    CollWarning(Vec<String>),
}

/// An interaction string pointing at a card or group the catalog lacks:
/// a `card(X)` whose `X` names no card, or a `group(G)` whose `G` names
/// no group.
pub open spec fn spec_inter_dangling(col: CollectionState, s: Seq<char>) -> bool {
    if crate::strutil::spec_starts_with(s, "card("@) {
        !crate::cards::has_str(col.card_names@, s.subrange(5, s.len() - 1))
    } else if crate::strutil::spec_starts_with(s, "group("@) {
        !crate::cards::has_str(col.group_names@, s.subrange(6, s.len() - 1))
    } else {
        false
    }
}

/// The interaction at position (pile, card, entry) dangles.
pub open spec fn spec_dangling_at(col: CollectionState, i: int, j: int, k: int) -> bool {
    spec_inter_dangling(col, col.piles@[i].cards@[j].other_interactions@[k]@)
}

/// Some card of the catalog has a dangling interaction.
pub open spec fn spec_has_dangler(col: CollectionState) -> bool {
    exists|i: int, j: int, k: int|
        0 <= i < col.piles@.len() && 0 <= j < col.piles@[i].cards@.len() && 0 <= k
            < col.piles@[i].cards@[j].other_interactions@.len() && #[trigger] spec_dangling_at(
            col,
            i,
            j,
            k,
        )
}

/// No dangling interaction in the first `i` piles.
pub open spec fn spec_clean_piles_upto(col: CollectionState, i: int) -> bool {
    forall|i2: int, j2: int, k2: int|
        0 <= i2 < i && 0 <= j2 < col.piles@[i2].cards@.len() && 0 <= k2
            < col.piles@[i2].cards@[j2].other_interactions@.len() ==> !#[trigger] spec_dangling_at(
            col,
            i2,
            j2,
            k2,
        )
}

/// No dangling interaction in the first `j` cards of pile `i`.
pub open spec fn spec_clean_cards_upto(col: CollectionState, i: int, j: int) -> bool {
    forall|j2: int, k2: int|
        0 <= j2 < j && 0 <= k2 < col.piles@[i].cards@[j2].other_interactions@.len()
            ==> !#[trigger] spec_dangling_at(col, i, j2, k2)
}

/// No dangling interaction in the first `k` entries of card `j` of pile `i`.
pub open spec fn spec_clean_inters_upto(col: CollectionState, i: int, j: int, k: int) -> bool {
    forall|k2: int| 0 <= k2 < k ==> !#[trigger] spec_dangling_at(col, i, j, k2)
}

/// The message reported for a dangling card target.
pub open spec fn spec_card_warning(cardname: Seq<char>, target: Seq<char>) -> Seq<char> {
    "Card "@ + cardname + " interacts with "@ + target + " but it is missing."@
}

/// The message reported for a dangling group target.
pub open spec fn spec_group_warning(cardname: Seq<char>, target: Seq<char>) -> Seq<char> {
    "Card "@ + cardname + " interacts with group "@ + target + " but it is missing."@
}

/// The warning one interaction string yields, if any.
pub open spec fn spec_inter_warning(
    col: CollectionState,
    cardname: Seq<char>,
    s: Seq<char>,
) -> Option<Seq<char>> {
    if crate::strutil::spec_starts_with(s, "card("@) {
        if !crate::cards::has_str(col.card_names@, s.subrange(5, s.len() - 1)) {
            Some(spec_card_warning(cardname, s.subrange(5, s.len() - 1)))
        } else {
            None
        }
    } else if crate::strutil::spec_starts_with(s, "group("@) {
        if !crate::cards::has_str(col.group_names@, s.subrange(6, s.len() - 1)) {
            Some(spec_group_warning(cardname, s.subrange(6, s.len() - 1)))
        } else {
            None
        }
    } else {
        None
    }
}

/// The validation warnings from position (pile, card, entry) onward, in
/// scan order.
pub open spec fn spec_warnings_from(col: CollectionState, i: int, j: int, k: int) -> Seq<Seq<char>>
    decreases
            col.piles@.len() - i,
            (if 0 <= i < col.piles@.len() {
                col.piles@[i].cards@.len() + 1 - j
            } else {
                0
            }),
            (if 0 <= i < col.piles@.len() && 0 <= j < col.piles@[i].cards@.len() {
                col.piles@[i].cards@[j].other_interactions@.len() + 1 - k
            } else {
                0
            }),
{
    if i < 0 || j < 0 || k < 0 || i >= col.piles@.len() {
        Seq::empty()
    } else if j >= col.piles@[i].cards@.len() {
        spec_warnings_from(col, i + 1, 0, 0)
    } else if k >= col.piles@[i].cards@[j].other_interactions@.len() {
        spec_warnings_from(col, i, j + 1, 0)
    } else {
        (match spec_inter_warning(
            col,
            col.piles@[i].cards@[j].name@,
            col.piles@[i].cards@[j].other_interactions@[k]@,
        ) {
            Some(w) => seq![w],
            None => Seq::<Seq<char>>::empty(),
        }) + spec_warnings_from(col, i, j, k + 1)
    }
}

/// Every warning catalog validation reports, in scan order: one for each
/// dangling `card(X)` or `group(G)` reference.
pub open spec fn spec_collection_warnings(col: CollectionState) -> Seq<Seq<char>> {
    spec_warnings_from(col, 0, 0, 0)
}

impl CardColl {
    pub fn from_state(c: CollectionState) -> (r: CardColl)
        ensures
            r.state == c,
    {
        CardColl { state: c }
    }

    pub fn get_piles(&self) -> (r: &Vec<Pile>)
        ensures
            r == &self.state.piles,
    {
        &self.state.piles
    }
}


/// The first pile carrying this name.
pub open spec fn spec_resolve_pile(piles: Seq<Pile>, n: Seq<char>) -> Option<int>
    decreases piles.len(),
{
    if piles.len() == 0 {
        None
    } else if piles[0].name@ == n {
        Some(0int)
    } else {
        match spec_resolve_pile(piles.skip(1), n) {
            Some(i) => Some(i + 1),
            None => None,
        }
    }
}

proof fn lemma_resolve_pile(piles: Seq<Pile>, n: Seq<char>)
    ensures
        match spec_resolve_pile(piles, n) {
            Some(i) => 0 <= i < piles.len() && piles[i].name@ == n,
            None => forall|i: int| 0 <= i < piles.len() ==> piles[i].name@ != n,
        },
    decreases piles.len(),
{
    if piles.len() > 0 && piles[0].name@ != n {
        lemma_resolve_pile(piles.skip(1), n);
        match spec_resolve_pile(piles.skip(1), n) {
            Some(i) => {
                assert(piles.skip(1)[i] == piles[i + 1]);
            },
            None => {
                assert forall|i: int| 0 <= i < piles.len() implies piles[i].name@ != n by {
                    if i >= 1 {
                        assert(piles.skip(1)[i - 1] == piles[i]);
                    }
                }
            },
        }
    }
}

/// The effective pile name of a card: its own name when the pile column
/// was blank.
pub open spec fn spec_card_pile_name(c: crate::cards::Card) -> Seq<char> {
    if c.pile@.len() == 0 {
        c.name@
    } else {
        c.pile@
    }
}

/// The scan for the pile owning a card of this name: cards are visited
/// pile by pile; the first one whose pile name resolves wins.
pub open spec fn spec_pfc_from(piles: Seq<Pile>, pi: int, ci: int, name: Seq<char>) -> Option<int>
    decreases piles.len() - pi, (if 0 <= pi < piles.len() {
        piles[pi].cards@.len() + 1 - ci
    } else {
        0
    }),
{
    if pi < 0 || ci < 0 || pi >= piles.len() {
        None
    } else if ci >= piles[pi].cards@.len() {
        spec_pfc_from(piles, pi + 1, 0, name)
    } else if piles[pi].cards@[ci].name@ == name {
        match spec_resolve_pile(piles, spec_card_pile_name(piles[pi].cards@[ci])) {
            Some(k) => Some(k),
            None => spec_pfc_from(piles, pi, ci + 1, name),
        }
    } else {
        spec_pfc_from(piles, pi, ci + 1, name)
    }
}

/// The pile owning the named card, if the scan finds one.
pub open spec fn spec_pile_for_card(col: CardColl, name: Seq<char>) -> Option<int> {
    spec_pfc_from(col.state.piles@, 0, 0, name)
}

pub proof fn lemma_pile_for_card_bounds(col: CardColl, name: Seq<char>)
    ensures
        match spec_pile_for_card(col, name) {
            Some(k) => 0 <= k < col.state.piles@.len(),
            None => true,
        },
{
    lemma_pfc_bounds(col.state.piles@, 0, 0, name);
}

proof fn lemma_pfc_bounds(piles: Seq<Pile>, pi: int, ci: int, name: Seq<char>)
    ensures
        match spec_pfc_from(piles, pi, ci, name) {
            Some(k) => 0 <= k < piles.len(),
            None => true,
        },
    decreases piles.len() - pi, (if 0 <= pi < piles.len() {
        piles[pi].cards@.len() + 1 - ci
    } else {
        0
    }),
{
    if pi < 0 || ci < 0 || pi >= piles.len() {
    } else if ci >= piles[pi].cards@.len() {
        lemma_pfc_bounds(piles, pi + 1, 0, name);
    } else if piles[pi].cards@[ci].name@ == name {
        lemma_resolve_pile(piles, spec_card_pile_name(piles[pi].cards@[ci]));
        lemma_pfc_bounds(piles, pi, ci + 1, name);
    } else {
        lemma_pfc_bounds(piles, pi, ci + 1, name);
    }
}

impl CardColl {
    /// Find the pile that owns a card of this name.
    pub fn get_pile_for_card(&self, s: &str) -> (r: Option<usize>)
        ensures
            match r {
                Some(k) => Some(k as int) == spec_pile_for_card(*self, s@) && k
                    < self.state.piles@.len(),
                None => spec_pile_for_card(*self, s@) is None,
            },
    {
        let npiles = self.state.piles.len();
        let mut pi: usize = 0;
        while pi < npiles
            invariant
                0 <= pi <= npiles,
                npiles == self.state.piles@.len(),
                spec_pile_for_card(*self, s@) == spec_pfc_from(self.state.piles@, pi as int, 0, s@),
            decreases npiles - pi,
        {
            let ncards = self.state.piles[pi].cards.len();
            let mut ci: usize = 0;
            while ci < ncards
                invariant
                    0 <= ci <= ncards,
                    0 <= pi < npiles,
                    npiles == self.state.piles@.len(),
                    ncards == self.state.piles@[pi as int].cards@.len(),
                    spec_pile_for_card(*self, s@) == spec_pfc_from(
                        self.state.piles@,
                        pi as int,
                        ci as int,
                        s@,
                    ),
                decreases ncards - ci,
            {
                let card = &self.state.piles[pi].cards[ci];
                let matched = str_eq(card.name.as_str(), s);
                if matched {
                    let pn: &str = if card.pile.as_str().unicode_len() == 0 {
                        card.name.as_str()
                    } else {
                        card.pile.as_str()
                    };
                    proof {
                        assert(pn@ == spec_card_pile_name(*card));
                    }
                    let mut k: usize = 0;
                    while k < npiles
                        invariant
                            0 <= k <= npiles,
                            npiles == self.state.piles@.len(),
                            0 <= pi < npiles,
                            0 <= ci < self.state.piles@[pi as int].cards@.len(),
                            self.state.piles@[pi as int].cards@[ci as int].name@ == s@,
                            pn@ == spec_card_pile_name(self.state.piles@[pi as int].cards@[ci as int]),
                            spec_pile_for_card(*self, s@) == spec_pfc_from(
                                self.state.piles@,
                                pi as int,
                                ci as int,
                                s@,
                            ),
                            forall|j: int|
                                0 <= j < k ==> (#[trigger] self.state.piles@[j]).name@ != pn@,
                        decreases npiles - k,
                    {
                        if str_eq(self.state.piles[k].name.as_str(), pn) {
                            proof {
                                lemma_resolve_first(self.state.piles@, pn@, k as int);
                                assert(spec_pfc_from(self.state.piles@, pi as int, ci as int, s@)
                                    == Some(k as int));
                            }
                            return Some(k);
                        }
                        k += 1;
                    }
                    proof {
                        lemma_resolve_pile(self.state.piles@, pn@);
                        if spec_resolve_pile(self.state.piles@, pn@) is Some {
                            let i = spec_resolve_pile(self.state.piles@, pn@)->Some_0;
                            assert(self.state.piles@[i].name@ != pn@);
                        }
                        assert(spec_pfc_from(self.state.piles@, pi as int, ci as int, s@)
                            == spec_pfc_from(self.state.piles@, pi as int, ci + 1, s@));
                    }
                } else {
                    proof {
                        assert(spec_pfc_from(self.state.piles@, pi as int, ci as int, s@)
                            == spec_pfc_from(self.state.piles@, pi as int, ci + 1, s@));
                    }
                }
                ci += 1;
            }
            proof {
                assert(spec_pfc_from(self.state.piles@, pi as int, ncards as int, s@)
                    == spec_pfc_from(self.state.piles@, pi + 1, 0, s@));
            }
            pi += 1;
        }
        proof {
            assert(spec_pfc_from(self.state.piles@, npiles as int, 0, s@) is None);
        }
        None
    }
}

proof fn lemma_resolve_first(piles: Seq<Pile>, n: Seq<char>, k: int)
    requires
        0 <= k < piles.len(),
        piles[k].name@ == n,
        forall|j: int| 0 <= j < k ==> (#[trigger] piles[j]).name@ != n,
    ensures
        spec_resolve_pile(piles, n) == Some(k),
    decreases k,
{
    if k == 0 {
    } else {
        assert forall|j: int| 0 <= j < k - 1 implies (#[trigger] piles.skip(1)[j]).name@ != n by {
            assert(piles.skip(1)[j] == piles[j + 1]);
        }
        assert(piles.skip(1)[k - 1] == piles[k]);
        lemma_resolve_first(piles.skip(1), n, k - 1);
    }
}

impl CardColl {
    /// Assemble the catalog: piles sorted into (group, name) order, with
    /// the card names, group names and legal costs collected.
    pub fn new_state(piles: Vec<Pile>) -> (r: CollectionState)
        requires
            spec_piles_wf(piles@),
        ensures
            r.piles@.to_multiset() == piles@.to_multiset(),
            spec_piles_wf(r.piles@),
            spec_piles_sorted(r.piles@),
            r.general_property == PropertyPtr::KingdomAndSupply(
                crate::properties::KingdomAndSupplyProperty {  },
            ),
    {
        let sorted = sort_piles(piles);
        proof {
            assert forall|i: int| 0 <= i < sorted@.len() implies (#[trigger] sorted@[i]).wf() by {
                assert(sorted@.contains(sorted@[i]));
                assert(sorted@.to_multiset().contains(sorted@[i]));
                assert(piles@.to_multiset().contains(sorted@[i]));
                assert(piles@.contains(sorted@[i]));
                let j = choose|j: int| 0 <= j < piles@.len() && piles@[j] == sorted@[i];
                assert(piles@[j].wf());
            }
        }
        let mut card_names: Vec<String> = Vec::new();
        let mut group_names: Vec<String> = Vec::new();
        let mut legal_costs = CostSet::new();
        let n = sorted.len();
        let mut i: usize = 0;
        while i < n
            invariant
                0 <= i <= n,
                n == sorted@.len(),
            decreases n - i,
        {
            let pile = &sorted[i];
            crate::piles::insert_str(&mut group_names, pile.card_group.as_str());
            let m = pile.cards.len();
            let mut j: usize = 0;
            while j < m
                invariant
                    0 <= j <= m,
                    0 <= i < n,
                    n == sorted@.len(),
                    m == sorted@[i as int].cards@.len(),
                decreases m - j,
            {
                crate::piles::insert_str(&mut card_names, sorted[i].cards[j].name.as_str());
                let c = sorted[i].cards[j].cost;
                legal_costs.insert(c);
                j += 1;
            }
            i += 1;
        }
        CollectionState {
            legal_costs,
            card_names,
            group_names,
            general_property: crate::properties::KingdomAndSupplyProperty::make_ptr(),
            piles: sorted,
        }
    }

    /// Walk the pile list three times, swapping each slot with a random
    /// one; biased on purpose, reproducible everywhere. The result is
    /// exactly the three-pass walk `spec_shuffle_upto` describes, driven
    /// by the generator's successive draws.
    pub fn shuffle(state: &mut CollectionState, r: &mut BadRand)
        requires
            spec_piles_wf(old(state).piles@),
        ensures
            final(state).piles@.to_multiset() == old(state).piles@.to_multiset(),
            spec_piles_wf(final(state).piles@),
            final(state).legal_costs == old(state).legal_costs,
            final(state).card_names == old(state).card_names,
            final(state).group_names == old(state).group_names,
            final(state).general_property == old(state).general_property,
            final(r).spec_cap() == old(r).spec_cap(),
            final(r).spec_step() == old(r).spec_step(),
            final(r).spec_init() == old(r).spec_init(),
            old(state).piles@.len() == 0 ==> final(state).piles@ == old(state).piles@
                && final(r).spec_seed() == old(r).spec_seed(),
            old(state).piles@.len() > 0 ==> {
                let (p, sd) = spec_shuffle_upto(
                    old(state).piles@,
                    old(r).spec_seed(),
                    old(r).spec_step(),
                    old(r).spec_cap(),
                    3 * old(state).piles@.len(),
                );
                &&& final(state).piles@ == p
                &&& final(r).spec_seed() == sd
            },
    {
        let us = state.piles.len();
        if us == 0 {
            return ;
        }
        let ghost gp0 = state.piles@;
        let ghost gs0 = r.spec_seed();
        let ghost gstep = r.spec_step();
        let ghost gcap = r.spec_cap();
        let size: u64 = us as u64;
        let mut pass: usize = 0;
        while pass < 3
            invariant
                0 <= pass <= 3,
                us == state.piles@.len(),
                us > 0,
                size == us as u64,
                gp0 == old(state).piles@,
                gp0.len() == us as nat,
                gs0 == old(r).spec_seed(),
                gstep == old(r).spec_step(),
                gcap == old(r).spec_cap(),
                r.spec_cap() == gcap,
                r.spec_step() == gstep,
                r.spec_init() == old(r).spec_init(),
                ({
                    let (p, sd) = spec_shuffle_upto(gp0, gs0, gstep, gcap, (pass * us) as nat);
                    state.piles@ == p && r.spec_seed() == sd
                }),
                state.piles@.to_multiset() == old(state).piles@.to_multiset(),
                spec_piles_wf(state.piles@),
                state.legal_costs == old(state).legal_costs,
                state.card_names == old(state).card_names,
                state.group_names == old(state).group_names,
                state.general_property == old(state).general_property,
            decreases 3 - pass,
        {
            let mut j: usize = 0;
            while j < us
                invariant
                    0 <= j <= us,
                    0 <= pass < 3,
                    us == state.piles@.len(),
                    us > 0,
                    size == us as u64,
                    gp0 == old(state).piles@,
                    gp0.len() == us as nat,
                    gs0 == old(r).spec_seed(),
                    gstep == old(r).spec_step(),
                    gcap == old(r).spec_cap(),
                    r.spec_cap() == gcap,
                    r.spec_step() == gstep,
                    r.spec_init() == old(r).spec_init(),
                    ({
                        let (p, sd) = spec_shuffle_upto(
                            gp0,
                            gs0,
                            gstep,
                            gcap,
                            (pass * us + j) as nat,
                        );
                        state.piles@ == p && r.spec_seed() == sd
                    }),
                    state.piles@.to_multiset() == old(state).piles@.to_multiset(),
                    spec_piles_wf(state.piles@),
                    state.legal_costs == old(state).legal_costs,
                    state.card_names == old(state).card_names,
                    state.group_names == old(state).group_names,
                    state.general_property == old(state).general_property,
                decreases us - j,
            {
                let ghost pre_seed = r.spec_seed();
                let raw = r.get();
                let pos: usize = (raw % size) as usize;
                let ghost pre = state.piles@;
                vec_swap_piles(&mut state.piles, pos, j);
                proof {
                    lemma_swap_multiset(pre, state.piles@, pos as int, j as int);
                    assert forall|k: int| 0 <= k < state.piles@.len() implies (
                    #[trigger] state.piles@[k]).wf() by {
                        assert(state.piles@[k] == pre[pos as int] || state.piles@[k] == pre[j as int]
                            || state.piles@[k] == pre[k]);
                    }
                    let t = (pass * us + j) as nat;
                    vstd::arithmetic::div_mod::lemma_mod_multiples_vanish(
                        pass as int,
                        j as int,
                        us as int,
                    );
                    vstd::arithmetic::div_mod::lemma_small_mod(j as nat, us as nat);
                    assert(pass * us == us * pass) by (nonlinear_arith);
                    assert((us as int * pass as int + j as int) % us as int == j as int % us as int);
                    assert(t % gp0.len() == j as nat);
                    let s2 = spec_rand_next(pre_seed, gstep, gcap);
                    let v: nat = if gcap == 0 {
                        0
                    } else {
                        s2
                    };
                    assert(raw as nat == v);
                    assert(pos as nat == v % (us as nat));
                    assert(spec_shuffle_upto(gp0, gs0, gstep, gcap, t + 1) == (
                        spec_swap_piles_at(pre, (v % pre.len()) as int, j as int),
                        s2,
                    ));
                    assert(state.piles@ =~= spec_swap_piles_at(pre, pos as int, j as int));
                }
                j += 1;
            }
            proof {
                assert(pass * us + us == (pass + 1) * us) by (nonlinear_arith);
            }
            pass += 1;
        }
    }

    /// Warn about every `card(X)` or `group(G)` interaction whose target
    /// is missing from the catalog. The catalog is clean exactly when no
    /// card points at a missing card or group.
    pub fn validate_collection(&self) -> (r: CollectionStatus)
        requires
            spec_piles_wf(self.state.piles@),
        ensures
            (r is CollOK) == !spec_has_dangler(self.state),
            r matches CollectionStatus::CollWarning(ws) ==> ws@.len() > 0 && ws.deep_view()
                == spec_collection_warnings(self.state),
            r is CollOK ==> spec_collection_warnings(self.state).len() == 0,
    {
        let mut warnings: Vec<String> = Vec::new();
        let npiles = self.state.piles.len();
        let mut i: usize = 0;
        while i < npiles
            invariant
                0 <= i <= npiles,
                npiles == self.state.piles@.len(),
                spec_piles_wf(self.state.piles@),
                (warnings@.len() == 0) == spec_clean_piles_upto(self.state, i as int),
                warnings.deep_view() + spec_warnings_from(self.state, i as int, 0, 0)
                    == spec_collection_warnings(self.state),
            decreases npiles - i,
        {
            let pile = &self.state.piles[i];
            let ncards = pile.cards.len();
            let mut j: usize = 0;
            while j < ncards
                invariant
                    0 <= j <= ncards,
                    0 <= i < npiles,
                    npiles == self.state.piles@.len(),
                    spec_piles_wf(self.state.piles@),
                    pile == &self.state.piles@[i as int],
                    ncards == pile.cards@.len(),
                    (warnings@.len() == 0) == (spec_clean_piles_upto(self.state, i as int)
                        && spec_clean_cards_upto(self.state, i as int, j as int)),
                    warnings.deep_view() + spec_warnings_from(self.state, i as int, j as int, 0)
                        == spec_collection_warnings(self.state),
                decreases ncards - j,
            {
                let card = &pile.cards[j];
                let non = card.other_interactions.len();
                let mut k: usize = 0;
                while k < non
                    invariant
                        0 <= k <= non,
                        0 <= j < ncards,
                        0 <= i < npiles,
                        npiles == self.state.piles@.len(),
                        spec_piles_wf(self.state.piles@),
                        pile == &self.state.piles@[i as int],
                        ncards == pile.cards@.len(),
                        card == &pile.cards@[j as int],
                        non == card.other_interactions@.len(),
                        (warnings@.len() == 0) == (spec_clean_piles_upto(self.state, i as int)
                            && spec_clean_cards_upto(self.state, i as int, j as int)
                            && spec_clean_inters_upto(self.state, i as int, j as int, k as int)),
                        warnings.deep_view() + spec_warnings_from(
                            self.state,
                            i as int,
                            j as int,
                            k as int,
                        ) == spec_collection_warnings(self.state),
                    decreases non - k,
                {
                    let ghost pre_warn = warnings@;
                    let ghost pre_dv = warnings.deep_view();
                    let inter = &card.other_interactions[k];
                    if starts_with(inter.as_str(), "card(") {
                        let slen = inter.as_str().unicode_len();
                        proof {
                            reveal_strlit("card(");
                            assert(inter@.subrange(0, 5) == "card("@);
                            assert(inter@[4] == inter@.subrange(0, 5)[4]);
                            assert(inter@.contains('(')) by {
                                assert(inter@[4] == '(');
                            }
                            assert(crate::cards::spec_paren_ok(inter@)) by {
                                assert(pile.wf());
                                assert(pile.cards@[j as int].wf());
                            }
                            assert(inter@.len() > 0 && inter@.last() == ')');
                            if slen == 5 {
                                assert(inter@[4] == ')');
                            }
                            assert(slen >= 6);
                        }
                        let target = inter.as_str().substring_char(5, slen - 1);
                        if !crate::cards::contains_str(&self.state.card_names, target) {
                            let mut w = String::new();
                            w = w.concat("Card ");
                            w = w.concat(card.name.as_str());
                            w = w.concat(" interacts with ");
                            w = w.concat(target);
                            w = w.concat(" but it is missing.");
                            let ghost wv = w@;
                            warnings.push(w);
                            proof {
                                assert(spec_dangling_at(self.state, i as int, j as int, k as int));
                                let col = self.state;
                                let gi = i as int;
                                let gj = j as int;
                                let gk = k as int;
                                let istr = inter@;
                                assert(wv =~= spec_card_warning(
                                    card.name@,
                                    istr.subrange(5, istr.len() - 1),
                                ));
                                assert(spec_inter_warning(col, card.name@, istr) == Some(wv));
                                assert(warnings.deep_view() =~~= pre_dv.push(wv));
                                assert(spec_warnings_from(col, gi, gj, gk) == seq![wv]
                                    + spec_warnings_from(col, gi, gj, gk + 1));
                                assert(warnings.deep_view() + spec_warnings_from(
                                    col,
                                    gi,
                                    gj,
                                    gk + 1,
                                ) =~~= pre_dv + spec_warnings_from(col, gi, gj, gk));
                            }
                        } else {
                            proof {
                                assert(!spec_dangling_at(self.state, i as int, j as int, k as int));
                                let col = self.state;
                                assert(spec_inter_warning(col, card.name@, inter@) is None);
                                assert(Seq::<Seq<char>>::empty() + spec_warnings_from(
                                    col,
                                    i as int,
                                    j as int,
                                    k as int + 1,
                                ) =~~= spec_warnings_from(col, i as int, j as int, k as int + 1));
                            }
                        }
                    } else if starts_with(inter.as_str(), "group(") {
                        let slen = inter.as_str().unicode_len();
                        proof {
                            reveal_strlit("group(");
                            assert(inter@.subrange(0, 6) == "group("@);
                            assert(inter@[5] == inter@.subrange(0, 6)[5]);
                            assert(inter@.contains('(')) by {
                                assert(inter@[5] == '(');
                            }
                            assert(crate::cards::spec_paren_ok(inter@)) by {
                                assert(pile.wf());
                                assert(pile.cards@[j as int].wf());
                            }
                            assert(inter@.len() > 0 && inter@.last() == ')');
                            if slen == 6 {
                                assert(inter@[5] == ')');
                            }
                            assert(slen >= 7);
                        }
                        let target = inter.as_str().substring_char(6, slen - 1);
                        if !crate::cards::contains_str(&self.state.group_names, target) {
                            let mut w = String::new();
                            w = w.concat("Card ");
                            w = w.concat(card.name.as_str());
                            w = w.concat(" interacts with group ");
                            w = w.concat(target);
                            w = w.concat(" but it is missing.");
                            let ghost wv = w@;
                            warnings.push(w);
                            proof {
                                assert(spec_dangling_at(self.state, i as int, j as int, k as int));
                                let col = self.state;
                                let gi = i as int;
                                let gj = j as int;
                                let gk = k as int;
                                let istr = inter@;
                                assert(wv =~= spec_group_warning(
                                    card.name@,
                                    istr.subrange(6, istr.len() - 1),
                                ));
                                assert(spec_inter_warning(col, card.name@, istr) == Some(wv));
                                assert(warnings.deep_view() =~~= pre_dv.push(wv));
                                assert(spec_warnings_from(col, gi, gj, gk) == seq![wv]
                                    + spec_warnings_from(col, gi, gj, gk + 1));
                                assert(warnings.deep_view() + spec_warnings_from(
                                    col,
                                    gi,
                                    gj,
                                    gk + 1,
                                ) =~~= pre_dv + spec_warnings_from(col, gi, gj, gk));
                            }
                        } else {
                            proof {
                                assert(!spec_dangling_at(self.state, i as int, j as int, k as int));
                                let col = self.state;
                                assert(spec_inter_warning(col, card.name@, inter@) is None);
                                assert(Seq::<Seq<char>>::empty() + spec_warnings_from(
                                    col,
                                    i as int,
                                    j as int,
                                    k as int + 1,
                                ) =~~= spec_warnings_from(col, i as int, j as int, k as int + 1));
                            }
                        }
                    } else {
                        proof {
                            reveal_strlit("card(");
                            reveal_strlit("group(");
                            assert(!spec_dangling_at(self.state, i as int, j as int, k as int));
                            let col = self.state;
                            assert(spec_inter_warning(col, card.name@, inter@) is None);
                            assert(Seq::<Seq<char>>::empty() + spec_warnings_from(
                                col,
                                i as int,
                                j as int,
                                k as int + 1,
                            ) =~~= spec_warnings_from(col, i as int, j as int, k as int + 1));
                        }
                    }
                    proof {
                        let col = self.state;
                        let gi = i as int;
                        let gj = j as int;
                        let gk = k as int;
                        assert forall|k2: int| 0 <= k2 < gk + 1 && spec_clean_inters_upto(
                            col,
                            gi,
                            gj,
                            gk,
                        ) && !spec_dangling_at(col, gi, gj, gk) implies !spec_dangling_at(
                            col,
                            gi,
                            gj,
                            k2,
                        ) by {}
                        if warnings@.len() == 0 {
                            assert(pre_warn.len() == 0);
                            assert(!spec_dangling_at(col, gi, gj, gk));
                            assert(spec_clean_inters_upto(col, gi, gj, gk + 1));
                        } else {
                            if pre_warn.len() == 0 {
                                assert(spec_dangling_at(col, gi, gj, gk));
                                assert(!spec_clean_inters_upto(col, gi, gj, gk + 1));
                            } else {
                                assert(!(spec_clean_piles_upto(col, gi) && spec_clean_cards_upto(
                                    col,
                                    gi,
                                    gj,
                                ) && spec_clean_inters_upto(col, gi, gj, gk)));
                                assert(spec_clean_inters_upto(col, gi, gj, gk + 1)
                                    ==> spec_clean_inters_upto(col, gi, gj, gk));
                            }
                        }
                    }
                    k += 1;
                }
                proof {
                    assert(spec_warnings_from(self.state, i as int, j as int, non as int)
                        == spec_warnings_from(self.state, i as int, j as int + 1, 0));
                }
                proof {
                    let col = self.state;
                    let gi = i as int;
                    let gj = j as int;
                    assert(spec_clean_cards_upto(col, gi, gj + 1) == (spec_clean_cards_upto(
                        col,
                        gi,
                        gj,
                    ) && spec_clean_inters_upto(col, gi, gj, non as int))) by {
                        if spec_clean_cards_upto(col, gi, gj) && spec_clean_inters_upto(
                            col,
                            gi,
                            gj,
                            non as int,
                        ) {
                            assert forall|j2: int, k2: int|
                                0 <= j2 < gj + 1 && 0 <= k2
                                    < col.piles@[gi].cards@[j2].other_interactions@.len() implies !(
                            #[trigger] spec_dangling_at(col, gi, j2, k2)) by {
                                if j2 < gj {
                                } else {
                                    assert(!spec_dangling_at(col, gi, gj, k2));
                                }
                            }
                        }
                        if spec_clean_cards_upto(col, gi, gj + 1) {
                            assert forall|k2: int|
                                0 <= k2 < non as int implies !#[trigger] spec_dangling_at(
                                col,
                                gi,
                                gj,
                                k2,
                            ) by {
                                assert(spec_dangling_at(col, gi, gj, k2) ==> false);
                            }
                        }
                    }
                }
                j += 1;
            }
            proof {
                assert(spec_warnings_from(self.state, i as int, ncards as int, 0)
                    == spec_warnings_from(self.state, i as int + 1, 0, 0));
            }
            proof {
                let col = self.state;
                let gi = i as int;
                assert(spec_clean_piles_upto(col, gi + 1) == (spec_clean_piles_upto(col, gi)
                    && spec_clean_cards_upto(col, gi, ncards as int))) by {
                    if spec_clean_piles_upto(col, gi) && spec_clean_cards_upto(
                        col,
                        gi,
                        ncards as int,
                    ) {
                        assert forall|i2: int, j2: int, k2: int|
                            0 <= i2 < gi + 1 && 0 <= j2 < col.piles@[i2].cards@.len() && 0 <= k2
                                < col.piles@[i2].cards@[j2].other_interactions@.len() implies !(
                        #[trigger] spec_dangling_at(col, i2, j2, k2)) by {
                            if i2 < gi {
                            } else {
                                assert(!spec_dangling_at(col, gi, j2, k2));
                            }
                        }
                    }
                    if spec_clean_piles_upto(col, gi + 1) {
                        assert forall|j2: int, k2: int|
                            0 <= j2 < ncards as int && 0 <= k2
                                < col.piles@[gi].cards@[j2].other_interactions@.len() implies !(
                        #[trigger] spec_dangling_at(col, gi, j2, k2)) by {
                            assert(spec_dangling_at(col, gi, j2, k2) ==> false);
                        }
                    }
                }
            }
            i += 1;
        }
        proof {
            let col = self.state;
            assert(spec_clean_piles_upto(col, npiles as int) == !spec_has_dangler(col)) by {
                if spec_clean_piles_upto(col, npiles as int) && spec_has_dangler(col) {
                    let (i2, j2, k2) = choose|i2: int, j2: int, k2: int|
                        0 <= i2 < col.piles@.len() && 0 <= j2 < col.piles@[i2].cards@.len() && 0
                            <= k2 < col.piles@[i2].cards@[j2].other_interactions@.len()
                            && #[trigger] spec_dangling_at(col, i2, j2, k2);
                    assert(!spec_dangling_at(col, i2, j2, k2));
                }
                if !spec_clean_piles_upto(col, npiles as int) {
                    let (i2, j2, k2) = choose|i2: int, j2: int, k2: int|
                        !(0 <= i2 < npiles as int && 0 <= j2 < col.piles@[i2].cards@.len() && 0
                            <= k2 < col.piles@[i2].cards@[j2].other_interactions@.len()
                            ==> !#[trigger] spec_dangling_at(col, i2, j2, k2));
                    assert(spec_has_dangler(col));
                }
            }
        }
        proof {
            assert(spec_warnings_from(self.state, npiles as int, 0, 0) =~~= Seq::<
                Seq<char>,
            >::empty());
            assert(warnings.deep_view() =~~= spec_collection_warnings(self.state));
            assert(warnings.deep_view().len() == warnings@.len());
        }
        if warnings.len() == 0 {
            CollectionStatus::CollOK
        } else {
            CollectionStatus::CollWarning(warnings)
        }
    }

    /// The piles matching a pile-level property, as a frozen cursor in
    /// catalog order; nothing for a selection property or an empty match.
    pub fn get_iterators(&self, p: &PropertyPtr) -> (r: Option<CollectionIterator>)
        ensures
            match r {
                Some(it) => {
                    &&& it.index == 0
                    &&& it.list@.len() > 0
                    &&& forall|j1: int, j2: int|
                        0 <= j1 < j2 < it.list@.len() ==> it.list@[j1] < it.list@[j2]
                    &&& forall|j: int|
                        0 <= j < it.list@.len() ==> (#[trigger] it.list@[j])
                            < self.state.piles@.len() && crate::properties::spec_pile_meets(
                            *p,
                            self.state.piles@[it.list@[j] as int],
                        )
                    &&& forall|i: int|
                        0 <= i < self.state.piles@.len() && crate::properties::spec_pile_meets(
                            *p,
                            #[trigger] self.state.piles@[i],
                        ) ==> exists|j: int| 0 <= j < it.list@.len() && it.list@[j] == i as usize
                },
                None => spec_is_selection_property(*p) || forall|i: int|
                    0 <= i < self.state.piles@.len() ==> !crate::properties::spec_pile_meets(
                        *p,
                        #[trigger] self.state.piles@[i],
                    ),
            },
    {
        if p.is_selection_property() {
            return None;
        }
        let n = self.state.piles.len();
        let mut list: Vec<usize> = Vec::new();
        let mut i: usize = 0;
        while i < n
            invariant
                0 <= i <= n,
                n == self.state.piles@.len(),
                forall|j: int|
                    0 <= j < list@.len() ==> (#[trigger] list@[j]) < i
                        && crate::properties::spec_pile_meets(
                        *p,
                        self.state.piles@[list@[j] as int],
                    ),
                forall|j1: int, j2: int| 0 <= j1 < j2 < list@.len() ==> list@[j1] < list@[j2],
                forall|k: int|
                    0 <= k < i && crate::properties::spec_pile_meets(
                        *p,
                        #[trigger] self.state.piles@[k],
                    ) ==> exists|j: int| 0 <= j < list@.len() && list@[j] == k as usize,
            decreases n - i,
        {
            if p.pile_meets(&self.state.piles[i]) {
                let ghost pre = list@;
                list.push(i);
                proof {
                    assert forall|k: int|
                        0 <= k < i + 1 && crate::properties::spec_pile_meets(
                            *p,
                            #[trigger] self.state.piles@[k],
                        ) implies exists|j: int|
                        0 <= j < list@.len() && list@[j] == k as usize by {
                        if k < i {
                            let j = choose|j: int| 0 <= j < pre.len() && pre[j] == k as usize;
                            assert(list@[j] == k as usize);
                        } else {
                            assert(list@[pre.len() as int] == i);
                        }
                    }
                }
            }
            i += 1;
        }
        if list.len() == 0 {
            return None;
        }
        Some(CollectionIterator { list, index: 0 })
    }

    /// Begin a draft: every base-group pile, then the first landscapes.
    /// A draft that comes back holds every base-group pile of the catalog.
    fn start_selection(&self, market_cap: u8, landscapes: u8) -> (r: Option<SelectionState>)
        requires
            spec_piles_wf(self.state.piles@),
        ensures
            match r {
                Some(s) => s.wf(*self) && s.initial_cards@ == (if market_cap == 0 {
                    10u8
                } else {
                    market_cap
                }),
                None => true,
            },
            r matches Some(s) ==> forall|i: int|
                0 <= i < self.state.piles@.len() && (#[trigger] self.state.piles@[i]).card_group@
                    == "base"@ ==> s.piles@.contains(i as usize),
            r matches Some(s) ==> forall|idx: int|
                0 <= idx < s.piles@.len() ==> (((#[trigger] s.piles@[idx]) < self.state.piles@.len())
                    && (self.state.piles@[s.piles@[idx] as int].card_group@
                    == "base"@ || crate::properties::spec_pile_meets(
                    PropertyPtr::OptionalExtra((crate::properties::OptionalExtraProperty {  })),
                    self.state.piles@[s.piles@[idx] as int],
                ))),
            ({
                &&& landscapes == 0
                &&& !crate::properties::spec_is_selection_property(self.state.general_property)
                &&& (exists|i: int|
                    0 <= i < self.state.piles@.len() && (#[trigger] self.state.piles@[i]).card_group@
                        == "base"@)
                &&& (exists|i: int|
                    0 <= i < self.state.piles@.len() && crate::properties::spec_pile_meets(
                        self.state.general_property,
                        #[trigger] self.state.piles@[i],
                    ))
                &&& (forall|i: int|
                    0 <= i < self.state.piles@.len() && (#[trigger] self.state.piles@[i]).card_group@
                        == "base"@ ==> !self.state.piles@[i].spec_is_normal())
            }) ==> r is Some,
    {
        let base = CardGroupProperty::make_ptr("base");
        let begin = match self.get_iterators(&base) {
            Some(v) => v,
            None => {
                proof {
                    if exists|i: int|
                        0 <= i < self.state.piles@.len() && (
                        #[trigger] self.state.piles@[i]).card_group@ == "base"@ {
                        let i = choose|i: int|
                            0 <= i < self.state.piles@.len() && (
                            #[trigger] self.state.piles@[i]).card_group@ == "base"@;
                        assert(crate::properties::spec_pile_meets(base, self.state.piles@[i]));
                        assert(!crate::properties::spec_is_selection_property(base));
                        assert(false);
                    }
                }
                return None;
            },
        };
        let ghost glist = begin.list@;
        let begin_general = match self.get_iterators(&self.state.general_property) {
            Some(v) => v,
            None => {
                proof {
                    if !crate::properties::spec_is_selection_property(self.state.general_property)
                        && exists|i: int|
                        0 <= i < self.state.piles@.len() && crate::properties::spec_pile_meets(
                            self.state.general_property,
                            #[trigger] self.state.piles@[i],
                        ) {
                        let i = choose|i: int|
                            0 <= i < self.state.piles@.len() && crate::properties::spec_pile_meets(
                                self.state.general_property,
                                #[trigger] self.state.piles@[i],
                            );
                        assert(false);
                    }
                }
                return None;
            },
        };
        let mut new_sel = if market_cap == 0 {
            SelectionState::new(self, begin_general)
        } else {
            SelectionState::new1(self, begin_general, market_cap)
        };
        let mut it = begin;
        proof {
            assert(new_sel.piles@ =~= glist.subrange(0, 0));
        }
        while it.index < it.list.len()
            invariant
                new_sel.wf(*self),
                new_sel.initial_cards@ == (if market_cap == 0 {
                    10u8
                } else {
                    market_cap
                }),
                it.list@ == glist,
                it.index <= glist.len(),
                forall|j: int|
                    0 <= j < glist.len() ==> (#[trigger] glist[j]) < self.state.piles@.len(),
                forall|j1: int, j2: int| 0 <= j1 < j2 < glist.len() ==> glist[j1] < glist[j2],
                forall|j: int|
                    0 <= j < glist.len() ==> (#[trigger] self.state.piles@[glist[j] as int]).card_group@
                        == "base"@,
                spec_piles_wf(self.state.piles@),
                new_sel.piles@ == glist.subrange(0, it.index as int),
                forall|j: int|
                    0 <= j < it.index ==> new_sel.piles@.contains(#[trigger] glist[j]),
            decreases glist.len() - it.index,
        {
            let i = it.list[it.index];
            it.index += 1;
            let ghost d0 = new_sel;
            if !new_sel.add_pile(i, self) {
                proof {
                    let gi = it.index as int - 1;
                    assert(!d0.piles@.contains(i)) by {
                        if d0.piles@.contains(i) {
                            let j = choose|j: int| 0 <= j < d0.piles@.len() && d0.piles@[j] == i;
                            assert(d0.piles@[j] == glist[j]);
                            assert(glist[j] < glist[gi]);
                        }
                    }
                    assert(self.state.piles@[i as int].spec_is_normal());
                    assert(self.state.piles@[i as int].card_group@ == "base"@);
                }
                return None;
            }
            proof {
                lemma_add_pile_wf(d0, new_sel, *self, i);
                assert(new_sel.piles@ =~= glist.subrange(0, it.index as int)) by {
                    assert(glist.subrange(0, it.index as int) =~= glist.subrange(
                        0,
                        it.index as int - 1,
                    ).push(glist[it.index as int - 1]));
                }
                assert forall|j: int| 0 <= j < it.index implies new_sel.piles@.contains(
                    #[trigger] glist[j],
                ) by {
                    if j < it.index - 1 {
                        crate::selection::lemma_push_keeps_contains(d0.piles@, i, glist[j]);
                    } else {
                        assert(new_sel.piles@[new_sel.piles@.len() - 1] == i);
                    }
                }
            }
        }
        proof {
            assert forall|i: int|
                0 <= i < self.state.piles@.len() && (#[trigger] self.state.piles@[i]).card_group@
                    == "base"@ implies new_sel.piles@.contains(i as usize) by {
                assert(crate::properties::spec_pile_meets(base, self.state.piles@[i]));
                let j = choose|j: int| 0 <= j < glist.len() && glist[j] == i as usize;
                assert(new_sel.piles@.contains(glist[j]));
            }
            assert forall|idx: int| 0 <= idx < new_sel.piles@.len() implies (((
            #[trigger] new_sel.piles@[idx]) < self.state.piles@.len()) && (
            self.state.piles@[new_sel.piles@[idx] as int].card_group@ == "base"@
                || crate::properties::spec_pile_meets(
                PropertyPtr::OptionalExtra((crate::properties::OptionalExtraProperty {  })),
                self.state.piles@[new_sel.piles@[idx] as int],
            ))) by {
                assert(new_sel.piles@[idx] == glist[idx]);
            }
        }
        if landscapes > 0 {
            let oep = crate::properties::OptionalExtraProperty::make_ptr();
            match self.get_iterators(&oep) {
                Some(begin2) => {
                    let mut it2 = begin2;
                    let mut count: u8 = 0;
                    let ghost g2 = it2.list@;
                    loop
                        invariant
                            new_sel.wf(*self),
                            new_sel.initial_cards@ == (if market_cap == 0 {
                                10u8
                            } else {
                                market_cap
                            }),
                            it2.list@ == g2,
                            forall|j: int|
                                0 <= j < g2.len() ==> (#[trigger] g2[j])
                                    < self.state.piles@.len(),
                            forall|j: int|
                                0 <= j < g2.len() ==> crate::properties::spec_pile_meets(
                                    PropertyPtr::OptionalExtra(
                                        (crate::properties::OptionalExtraProperty {  }),
                                    ),
                                    self.state.piles@[(#[trigger] g2[j]) as int],
                                ),
                            spec_piles_wf(self.state.piles@),
                            forall|i: int|
                                0 <= i < self.state.piles@.len() && (
                                #[trigger] self.state.piles@[i]).card_group@ == "base"@
                                    ==> new_sel.piles@.contains(i as usize),
                            forall|idx: int|
                                0 <= idx < new_sel.piles@.len() ==> (((
                                #[trigger] new_sel.piles@[idx]) < self.state.piles@.len())
                                    && (self.state.piles@[new_sel.piles@[idx] as int].card_group@
                                    == "base"@ || crate::properties::spec_pile_meets(
                                    PropertyPtr::OptionalExtra(
                                        (crate::properties::OptionalExtraProperty {  }),
                                    ),
                                    self.state.piles@[new_sel.piles@[idx] as int],
                                ))),
                        decreases it2.list@.len() - it2.index,
                    {
                        if count >= landscapes {
                            break ;
                        }
                        let ghost oi2 = it2.index;
                        let i = match it2.next() {
                            Some(v) => v,
                            None => {
                                break ;
                            },
                        };
                        proof {
                            assert(i == g2[oi2 as int]);
                        }
                        let ghost d0 = new_sel;
                        if !new_sel.add_pile(i, self) {
                            return None;
                        }
                        proof {
                            lemma_add_pile_wf(d0, new_sel, *self, i);
                            assert forall|ii: int|
                                0 <= ii < self.state.piles@.len() && (
                                #[trigger] self.state.piles@[ii]).card_group@ == "base"@ implies
                                new_sel.piles@.contains(ii as usize) by {
                                crate::selection::lemma_push_keeps_contains(
                                    d0.piles@,
                                    i,
                                    ii as usize,
                                );
                            }
                            assert forall|idx: int|
                                0 <= idx < new_sel.piles@.len() implies (((
                            #[trigger] new_sel.piles@[idx]) < self.state.piles@.len()) && (
                            self.state.piles@[new_sel.piles@[idx] as int].card_group@ == "base"@
                                || crate::properties::spec_pile_meets(
                                PropertyPtr::OptionalExtra(
                                    (crate::properties::OptionalExtraProperty {  }),
                                ),
                                self.state.piles@[new_sel.piles@[idx] as int],
                            ))) by {
                                if idx < new_sel.piles@.len() - 1 {
                                    assert(new_sel.piles@[idx] == d0.piles@[idx]);
                                } else {
                                    assert(new_sel.piles@[idx] == i);
                                }
                            }
                        }
                        if count < 255 {
                            count += 1;
                        }
                    }
                },
                None => {},
            }
        }
        Some(new_sel)
    }

    /// The heart of the search. Checks every constraint; fails on a
    /// broken one; runs the first demanded fix; finishes when the supply
    /// is full; otherwise follows the cost votes and then the general
    /// candidates, backtracking through copies of the draft.
    pub fn build_selection(
        &self,
        start: SelectionPtr,
        cons: &Vec<Constraint>,
        fuel: u64,
    ) -> (r: Result<SelectionPtr, String>)
        requires
            spec_piles_wf(self.state.piles@),
            start.state.wf(*self),
            cons_wf(cons@, *self),
        ensures
            r matches Ok(sel) ==> spec_build_ok(sel.state, start.state, cons@, *self),
            (fuel >= 1 && start.state.current_normal_pile_count == start.state.required_cards
                && (forall|k: int|
                0 <= k < cons@.len() ==> spec_status(#[trigger] cons@[k], start.state, *self)
                    != ConsResult::ConsFail && spec_status(cons@[k], start.state, *self)
                    != ConsResult::ConsActionReq)) ==> (r matches Ok(sel) && sel.state
                == start.state),
            (fuel >= 1 && (exists|k: int|
                0 <= k < cons@.len() && spec_status(#[trigger] cons@[k], start.state, *self)
                    == ConsResult::ConsFail)) ==> r is Err,
        decreases fuel, 4int,
    {
        if fuel == 0 {
            let mut msg = String::new();
            msg = msg.concat("search depth exhausted");
            return Err(msg);
        }
        let mut cur = start;
        let ncons = cons.len();
        let mut statuses: Vec<ConsResult> = Vec::new();
        let mut k: usize = 0;
        while k < ncons
            invariant
                0 <= k <= ncons,
                ncons == cons@.len(),
                spec_piles_wf(self.state.piles@),
                cur.state.wf(*self),
                cur == start,
                cur.state.piles@ == start.state.piles@,
                cur.state.notes@ == start.state.notes@,
                cur.state.tags == start.state.tags,
                cur.state.initial_cards == start.state.initial_cards,
                cons_wf(cons@, *self),
                fuel >= 1,
                statuses@.len() == k,
                forall|j: int|
                    0 <= j < k ==> #[trigger] statuses@[j] == spec_status(
                        cons@[j],
                        cur.state,
                        *self,
                    ) && statuses@[j] != ConsResult::ConsFail,
            decreases ncons - k,
        {
            let stat = cons[k].get_status(&cur, self);
            if stat == ConsResult::ConsFail {
                let mut msg = String::new();
                msg = msg.concat("Constraint Fail");
                return Err(msg);
            }
            statuses.push(stat);
            k += 1;
        }
        let supply_cap = cur.get_normal_pile_count() == cur.get_required_count();
        let mut k: usize = 0;
        while k < ncons
            invariant
                0 <= k <= ncons,
                ncons == cons@.len(),
                spec_piles_wf(self.state.piles@),
                cur.state.wf(*self),
                cur == start,
                cur.state.piles@ == start.state.piles@,
                cur.state.notes@ == start.state.notes@,
                cur.state.tags == start.state.tags,
                cur.state.initial_cards == start.state.initial_cards,
                cons_wf(cons@, *self),
                fuel >= 1,
                statuses@.len() == ncons,
                forall|j: int|
                    0 <= j < ncons ==> #[trigger] statuses@[j] == spec_status(
                        cons@[j],
                        cur.state,
                        *self,
                    ) && statuses@[j] != ConsResult::ConsFail,
                supply_cap == (cur.state.current_normal_pile_count == cur.state.required_cards),
                forall|j: int| 0 <= j < k ==> #[trigger] statuses@[j] != ConsResult::ConsActionReq,
            decreases ncons - k,
        {
            if statuses[k] == ConsResult::ConsActionReq {
                proof {
                    assert(crate::constraints::constraint_wf(cons@[k as int], *self));
                }
                let res = cons[k].act(&cur, self, cons, fuel);
                proof {
                    if res is Ok {
                        crate::constraints::lemma_notes_sub_eq(start.state, cur.state);
                        crate::constraints::lemma_build_ok_chain(
                            res->Ok_0.state,
                            cur.state,
                            start.state,
                            cons@,
                            *self,
                        );
                    }
                    assert forall|j: int| 0 <= j < cons@.len() implies spec_status(
                        #[trigger] cons@[j],
                        start.state,
                        *self,
                    ) != ConsResult::ConsFail by {
                        assert(statuses@[j] == spec_status(cons@[j], cur.state, *self));
                    }
                }
                return res;
            }
            k += 1;
        }
        proof {
            assert forall|j: int| 0 <= j < cons@.len() implies spec_status(
                #[trigger] cons@[j],
                start.state,
                *self,
            ) != ConsResult::ConsFail by {
                assert(statuses@[j] == spec_status(cons@[j], cur.state, *self));
            }
        }
        if supply_cap {
            proof {
                assert(seq_prefix(start.state.piles@, cur.state.piles@));
                crate::constraints::lemma_notes_sub_eq(start.state, cur.state);
                assert(cur.state.wf(*self));
                assert(cur.state.current_normal_pile_count == cur.state.required_cards);
                assert(cur.state.initial_cards == start.state.initial_cards);
                assert forall|j: int|
                    0 <= j < cons@.len() implies spec_status(#[trigger] cons@[j], cur.state, *self)
                    != ConsResult::ConsFail && spec_status(cons@[j], cur.state, *self)
                    != ConsResult::ConsActionReq by {
                    assert(statuses@[j] == spec_status(cons@[j], cur.state, *self));
                    assert(statuses@[j] != ConsResult::ConsFail);
                    assert(statuses@[j] != ConsResult::ConsActionReq);
                }
            }
            return Ok(cur);
        }
        // cost targets: vote, then try matching candidates
        if cur.need_to_check_costtargets() {
            let mut votes = CostVotes::new(self.state.legal_costs.clone());
            let mut need_target_action = false;
            let tn = cur.state.targets.len();
            let mut ti: usize = 0;
            while ti < tn
                invariant
                    0 <= ti <= tn,
                    tn == cur.state.targets@.len(),
                    forall|j2: int|
                        0 <= j2 < cons@.len() ==> spec_status(
                            #[trigger] cons@[j2],
                            start.state,
                            *self,
                        ) != ConsResult::ConsFail,
                    spec_piles_wf(self.state.piles@),
                    cur.state.wf(*self),
                    cur.state.piles@ == start.state.piles@,
                    cur.state.notes@ == start.state.notes@,
                    cur.state.tags == start.state.tags,
                    cur.state.initial_cards == start.state.initial_cards,
                    cur.state.current_normal_pile_count
                        == start.state.current_normal_pile_count,
                    cur.state.required_cards == start.state.required_cards,
                    cur.state.current_normal_pile_count != cur.state.required_cards,
                    cons_wf(cons@, *self),
                    fuel >= 1,
                decreases tn - ti,
            {
                let na = cur.state.targets[ti].add_votes(&cur.state.costs_in_supply, &mut votes);
                need_target_action = na || need_target_action;
                ti += 1;
            }
            let cn = cur.state.costs_in_supply.len();
            let mut cii: usize = 0;
            while cii < cn
                invariant
                    0 <= cii <= cn,
                    cn == cur.state.costs_in_supply@.len(),
                    forall|j2: int|
                        0 <= j2 < cons@.len() ==> spec_status(
                            #[trigger] cons@[j2],
                            start.state,
                            *self,
                        ) != ConsResult::ConsFail,
                    spec_piles_wf(self.state.piles@),
                    cur.state.wf(*self),
                    cur.state.piles@ == start.state.piles@,
                    cur.state.notes@ == start.state.notes@,
                    cur.state.tags == start.state.tags,
                    cur.state.initial_cards == start.state.initial_cards,
                    cur.state.current_normal_pile_count
                        == start.state.current_normal_pile_count,
                    cur.state.required_cards == start.state.required_cards,
                    cur.state.current_normal_pile_count != cur.state.required_cards,
                    cons_wf(cons@, *self),
                    fuel >= 1,
                decreases cn - cii,
            {
                let c = cur.state.costs_in_supply.index(cii);
                votes.add_vote(&c, -3000);
                cii += 1;
            }
            let mut max_cost = CostSet::new();
            if votes.get_max_weighted(&mut max_cost, 500, 210) {
                let cp = crate::properties::CostProperty::make_ptr_set(max_cost, true);
                match self.get_iterators(&cp) {
                    None => {
                        if need_target_action {
                            let mut msg = String::new();
                            msg = msg.concat("Needed target action");
                            return Err(msg);
                        }
                    },
                    Some(begin) => {
                        let mut it = begin;
                        loop
                            invariant
                                spec_piles_wf(self.state.piles@),
                                cur.state.wf(*self),
                                cur.state.piles@ == start.state.piles@,
                                cur.state.notes@ == start.state.notes@,
                                cur.state.tags == start.state.tags,
                                cur.state.initial_cards == start.state.initial_cards,
                                cur.state.current_normal_pile_count
                                    == start.state.current_normal_pile_count,
                                cur.state.required_cards == start.state.required_cards,
                                cur.state.current_normal_pile_count
                                    != cur.state.required_cards,
                                cons_wf(cons@, *self),
                                fuel >= 1,
                                forall|j2: int|
                                    0 <= j2 < cons@.len() ==> spec_status(
                                        #[trigger] cons@[j2],
                                        start.state,
                                        *self,
                                    ) != ConsResult::ConsFail,
                                forall|j: int|
                                    0 <= j < it.list@.len() ==> (#[trigger] it.list@[j])
                                        < self.state.piles@.len(),
                            decreases it.list@.len() - it.index,
                        {
                            let next = match it.next() {
                                Some(v) => v,
                                None => {
                                    break ;
                                },
                            };
                            if cur.contains(next) {
                                continue ;
                            }
                            let mut new_sel = cur.duplicate_state();
                            let ghost d0 = new_sel;
                            if !need_target_action {
                                new_sel.set_need_to_check(false, "");
                            }
                            let blame = new_sel.get_target_string();
                            let ghost d1 = new_sel;
                            if !new_sel.add_pile(next, self) {
                                if !need_target_action {
                                    // this draft must stop looking to the
                                    // cost votes as well
                                    let ghost pre_flag = cur.state;
                                    cur.state.set_need_to_check(false, "");
                                    proof {
                                        crate::selection::lemma_same_fields_wf(
                                            pre_flag,
                                            cur.state,
                                            *self,
                                        );
                                    }
                                    break ;
                                } else {
                                    return Err(String::new());
                                }
                            }
                            let ghost d2 = new_sel;
                            let mut why = String::new();
                            why = why.concat("<why?cost-target:");
                            why = why.concat(blame.as_str());
                            why = why.concat(">");
                            new_sel.tag_pile(next, why.as_str());
                            proof {
                                assert(d1.wf(*self)) by {
                                    assert(d0.wf(*self));
                                }
                                lemma_add_pile_wf(d1, d2, *self, next);
                                reveal_strlit("<why?cost-target:");
                                assert(why@[0] == '<');
                                crate::selection::lemma_not_bane(why@);
                                crate::selection::lemma_tag_wf(d2, new_sel, *self, next, why@);
                            }
                            let ghost mid = new_sel.piles@;
                            let ghost new_sel_notes = new_sel.notes@;
                            let res = self.build_selection(
                                SelectionPtr::from_state(new_sel),
                                cons,
                                fuel - 1,
                            );
                            match res {
                                Ok(s) => {
                                    proof {
                                        crate::constraints::lemma_prefix_trans2(
                                            start.state.piles@,
                                            mid,
                                            s.state.piles@,
                                        );
                                        assert(crate::constraints::notes_sub(start.state, s.state))
                                            by {
                                            assert(new_sel_notes == start.state.notes@);
                                        }
                                        assert(crate::constraints::tags_sub(
                                            start.state,
                                            new_sel,
                                        )) by {
                                            assert forall|q: usize, u: Seq<char>|
                                                has_tag(start.state.tags@, q, u) implies has_tag(
                                                new_sel.tags@,
                                                q,
                                                u,
                                            ) by {
                                                assert(has_tag(d2.tags@, q, u));
                                            }
                                        }
                                        assert forall|idx: int|
                                            start.state.piles@.len() <= idx
                                                < new_sel.piles@.len() implies
                                            crate::constraints::spec_pile_tagged(
                                            new_sel,
                                            #[trigger] new_sel.piles@[idx],
                                        ) by {
                                            assert(new_sel.piles@[idx] == next);
                                            assert(has_tag(new_sel.tags@, next, why@));
                                        }
                                        assert(crate::constraints::notes_sub(
                                            start.state,
                                            new_sel,
                                        )) by {
                                            assert(new_sel_notes == start.state.notes@);
                                        }
                                        crate::constraints::lemma_build_ok_chain(
                                            s.state,
                                            new_sel,
                                            start.state,
                                            cons@,
                                            *self,
                                        );
                                    }
                                    return Ok(s);
                                },
                                Err(_) => {},
                            }
                        }
                    },
                }
            }
        }
        let ghost pre_flag2 = cur.state;
        cur.state.set_need_to_check(false, "");
        proof {
            crate::selection::lemma_same_fields_wf(pre_flag2, cur.state, *self);
        }
        // no constraint to guide us: try the general piles
        loop
            invariant
                spec_piles_wf(self.state.piles@),
                cur.state.wf(*self),
                cur.state.piles@ == start.state.piles@,
                cur.state.notes@ == start.state.notes@,
                cur.state.tags == start.state.tags,
                cur.state.initial_cards == start.state.initial_cards,
                cur.state.current_normal_pile_count == start.state.current_normal_pile_count,
                cur.state.required_cards == start.state.required_cards,
                cur.state.current_normal_pile_count != cur.state.required_cards,
                cons_wf(cons@, *self),
                fuel >= 1,
                forall|j2: int|
                    0 <= j2 < cons@.len() ==> spec_status(#[trigger] cons@[j2], start.state, *self)
                        != ConsResult::ConsFail,
            decreases cur.state.begin_general.list@.len() - cur.state.begin_general.index,
        {
            let ghost pre_next = cur.state;
            let gen = match cur.state.begin_general.next() {
                Some(v) => v,
                None => {
                    break ;
                },
            };
            if gen >= self.state.piles.len() {
                // a cursor that does not point into this catalog cannot
                // be followed
                return Err(String::new());
            }
            proof {
                crate::selection::lemma_same_fields_wf(pre_next, cur.state, *self);
            }
            if cur.contains(gen) {
                continue ;
            }
            let mut new_sel = cur.duplicate_state();
            let ghost d0 = new_sel;
            if !new_sel.add_pile(gen, self) {
                return Err(String::new());
            }
            let ghost d1 = new_sel;
            new_sel.tag_pile(gen, "<why?general>");
            proof {
                lemma_add_pile_wf(d0, d1, *self, gen);
                reveal_strlit("<why?general>");
                crate::selection::lemma_not_bane("<why?general>"@);
                crate::selection::lemma_tag_wf(d1, new_sel, *self, gen, "<why?general>"@);
            }
            let ghost mid = new_sel.piles@;
            let ghost new_sel_notes = new_sel.notes@;
            let res = self.build_selection(SelectionPtr::from_state(new_sel), cons, fuel - 1);
            match res {
                Ok(v) => {
                    proof {
                        crate::constraints::lemma_prefix_trans2(
                            start.state.piles@,
                            mid,
                            v.state.piles@,
                        );
                        assert(crate::constraints::notes_sub(start.state, v.state)) by {
                            assert(new_sel_notes == start.state.notes@);
                        }
                        assert(crate::constraints::tags_sub(start.state, new_sel)) by {
                            assert forall|q: usize, u: Seq<char>|
                                has_tag(start.state.tags@, q, u) implies has_tag(
                                new_sel.tags@,
                                q,
                                u,
                            ) by {
                                assert(has_tag(d1.tags@, q, u));
                            }
                        }
                        assert forall|idx: int|
                            start.state.piles@.len() <= idx < new_sel.piles@.len() implies
                            crate::constraints::spec_pile_tagged(
                            new_sel,
                            #[trigger] new_sel.piles@[idx],
                        ) by {
                            assert(new_sel.piles@[idx] == gen);
                            assert(has_tag(new_sel.tags@, gen, "<why?general>"@));
                        }
                        assert(crate::constraints::notes_sub(start.state, new_sel)) by {
                            assert(new_sel_notes == start.state.notes@);
                        }
                        crate::constraints::lemma_build_ok_chain(
                            v.state,
                            new_sel,
                            start.state,
                            cons@,
                            *self,
                        );
                    }
                    return Ok(v);
                },
                Err(_) => {},
            }
        }
        Err(String::new())
    }
}

proof fn lemma_swap_multiset(pre: Seq<Pile>, post: Seq<Pile>, a: int, b: int)
    requires
        0 <= a < pre.len(),
        0 <= b < pre.len(),
        post == pre.update(a, pre[b]).update(b, pre[a]),
    ensures
        post.to_multiset() == pre.to_multiset(),
        forall|k: int|
            0 <= k < post.len() ==> post[k] == pre[a] || post[k] == pre[b] || post[k] == pre[k],
{
    if a == b {
        assert(post =~= pre);
    } else {
        vstd::seq_lib::to_multiset_update(pre, a, pre[b]);
        vstd::seq_lib::to_multiset_update(pre.update(a, pre[b]), b, pre[a]);
        assert(pre.update(a, pre[b])[b] == pre[b]);
        assert(pre.to_multiset().contains(pre[a]));
        assert(pre.to_multiset().contains(pre[b]));
        assert(post.to_multiset() =~= pre.to_multiset());
    }
}


/// How the returned kingdom relates to the draft the search built:
/// the draft satisfies the builder's whole guarantee against the given
/// constraints, and the finish pass has only appended DarkAges-base
/// piles, at most the `addedDarkAges-base` note, and no `Bane` tag.
pub open spec fn spec_generated_from(
    final_sel: SelectionState,
    mid: SelectionState,
    cons: Seq<Constraint>,
    col: CardColl,
) -> bool {
    &&& final_sel.wf(col)
    &&& spec_build_ok(mid, mid, cons, col)
    &&& seq_prefix(mid.piles@, final_sel.piles@)
    &&& mid.required_cards == final_sel.required_cards
    &&& mid.initial_cards == final_sel.initial_cards
    &&& (forall|i2: int|
        mid.piles@.len() <= i2 < final_sel.piles@.len() ==> (#[trigger] final_sel.piles@[i2])
            < col.state.piles@.len() && col.state.piles@[final_sel.piles@[i2] as int].card_group@
            == "DarkAges-base"@)
    &&& crate::constraints::notes_sub(mid, final_sel)
    &&& (forall|u: Seq<char>|
        final_sel.spec_has_note(u) ==> mid.spec_has_note(u) || u == "addedDarkAges-base"@)
    &&& (forall|q: usize|
        has_tag(final_sel.tags@, q, "Bane"@) <==> has_tag(mid.tags@, q, "Bane"@))
}

/// How many selected piles are kingdom-and-supply piles.
pub open spec fn spec_ks_count(col: CardColl, piles: Seq<usize>) -> int
    decreases piles.len(),
{
    if piles.len() == 0 {
        0
    } else {
        spec_ks_count(col, piles.drop_last()) + if (piles.last() as int) < col.state.piles@.len()
            && col.state.piles@[piles.last() as int].spec_is_normal() {
            1int
        } else {
            0int
        }
    }
}

/// How many selected kingdom-and-supply piles come from the DarkAges group.
pub open spec fn spec_da_count(col: CardColl, piles: Seq<usize>) -> int
    decreases piles.len(),
{
    if piles.len() == 0 {
        0
    } else {
        spec_da_count(col, piles.drop_last()) + if (piles.last() as int) < col.state.piles@.len()
            && col.state.piles@[piles.last() as int].spec_is_normal()
            && col.state.piles@[piles.last() as int].card_group@ == "DarkAges"@ {
            1int
        } else {
            0int
        }
    }
}

/// The value one draw of the generator yields.
pub open spec fn spec_rand_value(r: BadRand) -> nat {
    if r.spec_cap() == 0 {
        0
    } else {
        spec_rand_next(r.spec_seed(), r.spec_step(), r.spec_cap())
    }
}

/// The DarkAges starting-deck decision: with any DarkAges kingdom pile
/// selected, exactly one draw is taken; on a hit (the draw, modulo the
/// kingdom-pile count, below the DarkAges count) every available
/// DarkAges-base pile that is not itself a kingdom-supply pile joins the
/// selection and the `addedDarkAges-base` note is recorded; otherwise
/// the piles and notes stay as they were.
pub open spec fn spec_darkages_law(
    col: CardColl,
    pre: SelectionState,
    post: SelectionState,
    rpre: BadRand,
    rpost: BadRand,
) -> bool {
    let ks = spec_ks_count(col, pre.piles@);
    let da = spec_da_count(col, pre.piles@);
    let hit = da > 0 && spec_rand_value(rpre) % (ks as nat) < da as nat;
    let avail = exists|q: int|
        0 <= q < col.state.piles@.len() && (#[trigger] col.state.piles@[q]).card_group@
            == "DarkAges-base"@;
    &&& (da == 0 ==> rpost == rpre && post.piles@ == pre.piles@ && post.notes@ == pre.notes@)
    &&& (da > 0 ==> {
        &&& rpost.spec_cap() == rpre.spec_cap()
        &&& rpost.spec_step() == rpre.spec_step()
        &&& rpost.spec_init() == rpre.spec_init()
        &&& rpost.spec_seed() == spec_rand_next(
            rpre.spec_seed(),
            rpre.spec_step(),
            rpre.spec_cap(),
        )
        &&& (!(hit && avail) ==> post.piles@ == pre.piles@ && post.notes@ == pre.notes@)
        &&& ((hit && avail) ==> post.spec_has_note("addedDarkAges-base"@) && (forall|q: int|
            0 <= q < col.state.piles@.len() && (#[trigger] col.state.piles@[q]).card_group@
                == "DarkAges-base"@ && !col.state.piles@[q].spec_is_normal()
                ==> post.piles@.contains(q as usize)))
    })
}

/// A pile whose cards ever cost debt.
pub open spec fn spec_pile_has_debt(p: Pile) -> bool {
    exists|ci: int| 0 <= ci < p.costs@.len() && (#[trigger] p.costs@[ci]).debt is Some
}

impl CardColl {
    /// Post-passes after a successful search: perhaps the DarkAges base
    /// cards, then the physical items and starting-deck notes.
    fn finish_selection(&self, sel: &mut SelectionState, rand: &mut BadRand)
        requires
            spec_piles_wf(self.state.piles@),
            old(sel).wf(*self),
        ensures
            final(sel).wf(*self),
            seq_prefix(old(sel).piles@, final(sel).piles@),
            final(sel).required_cards == old(sel).required_cards,
            final(sel).current_normal_pile_count >= old(sel).current_normal_pile_count,
            final(sel).initial_cards == old(sel).initial_cards,
            forall|i2: int|
                old(sel).piles@.len() <= i2 < final(sel).piles@.len() ==> (
                #[trigger] final(sel).piles@[i2]) < self.state.piles@.len()
                    && self.state.piles@[final(sel).piles@[i2] as int].card_group@
                    == "DarkAges-base"@,
            crate::constraints::notes_sub(*old(sel), *final(sel)),
            forall|u: Seq<char>|
                final(sel).spec_has_note(u) ==> old(sel).spec_has_note(u) || u
                    == "addedDarkAges-base"@,
            forall|q: usize|
                has_tag(final(sel).tags@, q, "Bane"@) <==> has_tag(old(sel).tags@, q, "Bane"@),
            spec_darkages_law(*self, *old(sel), *final(sel), *old(rand), *final(rand)),
            forall|i: int|
                0 <= i < final(sel).piles@.len() && crate::cards::has_str(
                    self.state.piles@[(#[trigger] final(sel).piles@[i]) as int].keywords@,
                    "+point"@,
                ) ==> crate::cards::has_str(final(sel).need_items@, "points(shield) tokens"@),
            forall|i: int|
                0 <= i < final(sel).piles@.len() && spec_pile_has_debt(
                    self.state.piles@[(#[trigger] final(sel).piles@[i]) as int],
                ) ==> crate::cards::has_str(final(sel).need_items@, "debt tokens"@),
            forall|i: int|
                0 <= i < final(sel).piles@.len() && (crate::cards::has_str(
                    self.state.piles@[(#[trigger] final(sel).piles@[i]) as int].keywords@,
                    "+coffers"@,
                ) || crate::cards::has_str(
                    self.state.piles@[final(sel).piles@[i] as int].keywords@,
                    "+villagers"@,
                )) ==> crate::cards::has_str(final(sel).need_items@, "coin tokens"@)
                    && crate::cards::has_str(final(sel).need_items@, "coffers/villagers mat"@),
            forall|i: int|
                0 <= i < final(sel).piles@.len() && crate::cards::has_str(
                    self.state.piles@[(#[trigger] final(sel).piles@[i]) as int].types@,
                    "Heirloom"@,
                ) ==> has_tag(
                    final(sel).tags@,
                    final(sel).piles@[i],
                    "Replaces one Copper in starting deck"@,
                ),
    {
        let npiles = sel.piles.len();
        let mut da_count: u64 = 0;
        let mut ks_count: u64 = 0;
        let mut i: usize = 0;
        while i < npiles
            invariant
                0 <= i <= npiles,
                npiles == sel.piles@.len(),
                sel.wf(*self),
                *sel == *old(sel),
                spec_piles_wf(self.state.piles@),
                da_count <= ks_count,
                ks_count <= i,
                ks_count == spec_ks_count(*self, sel.piles@.subrange(0, i as int)),
                da_count == spec_da_count(*self, sel.piles@.subrange(0, i as int)),
            decreases npiles - i,
        {
            proof {
                assert(sel.piles@.subrange(0, i + 1).drop_last() =~= sel.piles@.subrange(
                    0,
                    i as int,
                ));
            }
            let idx = sel.piles[i];
            let pile = &self.state.piles[idx];
            if pile.supply && pile.kingdom {
                ks_count += 1;
                if str_eq(pile.card_group.as_str(), "DarkAges") {
                    da_count += 1;
                }
            }
            i += 1;
        }
        proof {
            assert(sel.piles@.subrange(0, npiles as int) =~= sel.piles@);
        }
        let ghost grand0 = *rand;
        let ghost gks = spec_ks_count(*self, old(sel).piles@);
        let ghost gda = spec_da_count(*self, old(sel).piles@);
        if da_count > 0 {
            let raw = rand.get();
            let r = raw % ks_count;
            proof {
                assert(raw as nat == spec_rand_value(grand0));
                assert(r as nat == spec_rand_value(grand0) % (gks as nat));
            }
            if r < da_count {
                let ps = CardGroupProperty::make_ptr("DarkAges-base");
                match self.get_iterators(&ps) {
                    Some(begin) => {
                        let mut it = begin;
                        let ghost glist = it.list@;
                        proof {
                            assert forall|q: int|
                                0 <= q < self.state.piles@.len() && (
                                #[trigger] self.state.piles@[q]).card_group@ == "DarkAges-base"@ implies exists|
                                j: int,
                            | 0 <= j < glist.len() && glist[j] == q as usize by {
                                assert(crate::properties::spec_pile_meets(
                                    ps,
                                    self.state.piles@[q],
                                ));
                            }
                            assert forall|j: int|
                                0 <= j < glist.len() implies self.state.piles@[(
                                #[trigger] glist[j]) as int].card_group@ == "DarkAges-base"@ by {
                                assert(crate::properties::spec_pile_meets(
                                    ps,
                                    self.state.piles@[glist[j] as int],
                                ));
                            }
                        }
                        while it.index < it.list.len()
                            invariant
                                it.list@ == glist,
                                spec_piles_wf(self.state.piles@),
                                sel.wf(*self),
                                seq_prefix(old(sel).piles@, sel.piles@),
                                sel.required_cards == old(sel).required_cards,
                                sel.current_normal_pile_count >= old(sel).current_normal_pile_count,
                                sel.initial_cards == old(sel).initial_cards,
                                sel.notes@ == old(sel).notes@,
                                forall|i2: int|
                                    old(sel).piles@.len() <= i2 < sel.piles@.len() ==> (
                                    #[trigger] sel.piles@[i2]) < self.state.piles@.len()
                                        && self.state.piles@[sel.piles@[i2] as int].card_group@
                                        == "DarkAges-base"@,
                                forall|q: usize|
                                    has_tag(sel.tags@, q, "Bane"@) <==> has_tag(
                                        old(sel).tags@,
                                        q,
                                        "Bane"@,
                                    ),
                                forall|j: int|
                                    0 <= j < glist.len() ==> self.state.piles@[(
                                    #[trigger] glist[j]) as int].card_group@ == "DarkAges-base"@,
                                forall|j: int|
                                    0 <= j < glist.len() ==> (#[trigger] glist[j])
                                        < self.state.piles@.len(),
                                forall|q: int|
                                    0 <= q < self.state.piles@.len() && (
                                    #[trigger] self.state.piles@[q]).card_group@
                                        == "DarkAges-base"@ ==> exists|j: int|
                                        0 <= j < glist.len() && glist[j] == q as usize,
                                forall|j: int|
                                    0 <= j < it.index && j < glist.len() && !self.state.piles@[(
                                    #[trigger] glist[j]) as int].spec_is_normal()
                                        ==> sel.piles@.contains(glist[j]),
                            decreases it.list@.len() - it.index,
                        {
                            let ghost oi = it.index;
                            let p = it.list[it.index];
                            it.index = it.index + 1;
                            proof {
                                assert(p == glist[oi as int]);
                                assert(p < self.state.piles@.len());
                            }
                            let ghost d0 = *sel;
                            let added = sel.add_pile(p, self);
                            if added {
                                let ghost d1 = *sel;
                                sel.tag_pile(p, "<why?had enough DarkAges cards>");
                                let ghost d2 = *sel;
                                sel.tag_pile(p, "Replaces Estate in starting deck");
                                proof {
                                    lemma_add_pile_wf(d0, d1, *self, p);
                                    reveal_strlit("<why?had enough DarkAges cards>");
                                    crate::selection::lemma_not_bane(
                                        "<why?had enough DarkAges cards>"@,
                                    );
                                    crate::selection::lemma_tag_wf(
                                        d1,
                                        d2,
                                        *self,
                                        p,
                                        "<why?had enough DarkAges cards>"@,
                                    );
                                    reveal_strlit("Replaces Estate in starting deck");
                                    crate::selection::lemma_not_bane(
                                        "Replaces Estate in starting deck"@,
                                    );
                                    crate::selection::lemma_tag_wf(
                                        d2,
                                        *sel,
                                        *self,
                                        p,
                                        "Replaces Estate in starting deck"@,
                                    );
                                    crate::constraints::lemma_prefix_push(
                                        old(sel).piles@,
                                        d0.piles@,
                                        p,
                                    );
                                    assert forall|i2: int|
                                        old(sel).piles@.len() <= i2 < sel.piles@.len() implies (
                                        #[trigger] sel.piles@[i2]) < self.state.piles@.len()
                                            && self.state.piles@[sel.piles@[i2] as int].card_group@
                                            == "DarkAges-base"@ by {
                                        if i2 < d0.piles@.len() {
                                            assert(sel.piles@[i2] == d0.piles@[i2]);
                                        } else {
                                            assert(sel.piles@[i2] == p);
                                        }
                                    }
                                    assert forall|q: usize|
                                        has_tag(sel.tags@, q, "Bane"@) <==> has_tag(
                                            old(sel).tags@,
                                            q,
                                            "Bane"@,
                                        ) by {
                                        assert(has_tag(d2.tags@, q, "Bane"@) <==> has_tag(
                                            d1.tags@,
                                            q,
                                            "Bane"@,
                                        ));
                                        assert(has_tag(sel.tags@, q, "Bane"@) <==> has_tag(
                                            d2.tags@,
                                            q,
                                            "Bane"@,
                                        ));
                                        assert(d1.tags@ == d0.tags@);
                                    }
                                    assert forall|j: int|
                                        0 <= j < it.index && j < glist.len()
                                            && !self.state.piles@[(
                                        #[trigger] glist[j]) as int].spec_is_normal() implies sel.piles@.contains(
                                        glist[j],
                                    ) by {
                                        if j < it.index - 1 {
                                            assert(d0.piles@.contains(glist[j]));
                                            crate::selection::lemma_push_keeps_contains(
                                                d0.piles@,
                                                p,
                                                glist[j],
                                            );
                                        } else {
                                            assert(sel.piles@[d0.piles@.len() as int] == p);
                                        }
                                    }
                                }
                            } else {
                                proof {
                                    assert forall|j: int|
                                        0 <= j < it.index && j < glist.len()
                                            && !self.state.piles@[(
                                        #[trigger] glist[j]) as int].spec_is_normal() implies sel.piles@.contains(
                                        glist[j],
                                    ) by {
                                        if j == it.index - 1 {
                                            assert(sel.piles@.contains(p));
                                        }
                                    }
                                }
                            }
                        }
                        let ghost d3 = *sel;
                        sel.add_note("addedDarkAges-base");
                        proof {
                            vstd::std_specs::vec::axiom_spec_len(&it.list);
                            vstd::std_specs::vec::axiom_spec_len(&self.state.piles);
                            assert(crate::selection::note_added(*sel, d3, "addedDarkAges-base"@));
                            assert("addedDarkAges-base"@ != "hasBane"@) by {
                                reveal_strlit("addedDarkAges-base");
                                reveal_strlit("hasBane");
                                assert("addedDarkAges-base"@[0] == 'a');
                                assert("hasBane"@[0] == 'h');
                            }
                            assert forall|k: int|
                                0 <= k < self.state.piles@.len() && !(
                                #[trigger] self.state.piles@[k]).spec_is_normal()
                                    && "addedDarkAges-base"@ == "added"@
                                    + self.state.piles@[k].card_group@ implies sel.piles@.contains(
                                k as usize,
                            ) by {
                                assert(self.state.piles@[k].card_group@ == "DarkAges-base"@) by {
                                    reveal_strlit("addedDarkAges-base");
                                    reveal_strlit("added");
                                    reveal_strlit("DarkAges-base");
                                    let whole = "added"@ + self.state.piles@[k].card_group@;
                                    assert(whole == "addedDarkAges-base"@);
                                    assert(self.state.piles@[k].card_group@ =~= whole.subrange(
                                        5,
                                        whole.len() as int,
                                    ));
                                    assert("DarkAges-base"@ =~= "addedDarkAges-base"@.subrange(
                                        5,
                                        "addedDarkAges-base"@.len() as int,
                                    ));
                                }
                                let j = choose|j: int|
                                    0 <= j < glist.len() && glist[j] == k as usize;
                                assert(glist[j] as int == k);
                                assert(!self.state.piles@[glist[j] as int].spec_is_normal());
                                assert(it.index >= glist.len());
                                assert(d3.piles@.contains(glist[j]));
                            }
                            crate::selection::lemma_note_wf(d3, *sel, *self, "addedDarkAges-base"@);
                            assert(crate::constraints::notes_sub(*old(sel), *sel)) by {
                                assert(d3.notes@ == old(sel).notes@);
                            }
                            assert forall|u: Seq<char>|
                                sel.spec_has_note(u) implies old(sel).spec_has_note(u) || u
                                == "addedDarkAges-base"@ by {
                                assert(sel.spec_has_note(u) <==> (d3.spec_has_note(u) || u
                                    == "addedDarkAges-base"@));
                            }
                            assert forall|q: int|
                                0 <= q < self.state.piles@.len() && (
                                #[trigger] self.state.piles@[q]).card_group@ == "DarkAges-base"@
                                    && !self.state.piles@[q].spec_is_normal() implies sel.piles@.contains(
                                q as usize,
                            ) by {
                                let j = choose|j: int|
                                    0 <= j < glist.len() && glist[j] == q as usize;
                                assert(!self.state.piles@[glist[j] as int].spec_is_normal());
                                assert(it.index >= glist.len());
                                assert(d3.piles@.contains(glist[j]));
                            }
                            assert(glist.len() > 0);
                            assert(self.state.piles@[glist[0] as int].card_group@
                                == "DarkAges-base"@);
                            assert(spec_darkages_law(*self, *old(sel), *sel, grand0, *rand));
                        }
                    },
                    None => {
                        proof {
                            assert(!(exists|q: int|
                                0 <= q < self.state.piles@.len() && (
                                #[trigger] self.state.piles@[q]).card_group@
                                    == "DarkAges-base"@)) by {
                                if exists|q: int|
                                    0 <= q < self.state.piles@.len() && (
                                    #[trigger] self.state.piles@[q]).card_group@
                                        == "DarkAges-base"@ {
                                    let q = choose|q: int|
                                        0 <= q < self.state.piles@.len() && (
                                        #[trigger] self.state.piles@[q]).card_group@
                                            == "DarkAges-base"@;
                                    assert(crate::properties::spec_pile_meets(
                                        ps,
                                        self.state.piles@[q],
                                    ));
                                    assert(!crate::properties::spec_is_selection_property(ps));
                                }
                            }
                            assert(spec_darkages_law(*self, *old(sel), *sel, grand0, *rand));
                        }
                    },
                }
            } else {
                proof {
                    assert(spec_darkages_law(*self, *old(sel), *sel, grand0, *rand));
                }
            }
        } else {
            proof {
                assert(spec_darkages_law(*self, *old(sel), *sel, grand0, *rand));
            }
        }
        // physical items and starting-deck notes
        let n2 = sel.piles.len();
        let mut i: usize = 0;
        let ghost d4 = *sel;
        proof {
            crate::constraints::lemma_notes_sub_eq(*sel, *sel);
            assert(spec_darkages_law(*self, *old(sel), d4, *old(rand), *rand));
        }
        while i < n2
            invariant
                0 <= i <= n2,
                n2 == sel.piles@.len(),
                spec_piles_wf(self.state.piles@),
                sel.wf(*self),
                sel.piles@ == d4.piles@,
                seq_prefix(old(sel).piles@, d4.piles@),
                sel.required_cards == old(sel).required_cards,
                sel.current_normal_pile_count >= old(sel).current_normal_pile_count,
                sel.initial_cards == old(sel).initial_cards,
                sel.notes@ == d4.notes@,
                crate::constraints::notes_sub(*old(sel), d4),
                spec_darkages_law(*self, *old(sel), d4, *old(rand), *rand),
                forall|u: Seq<char>|
                    d4.spec_has_note(u) ==> old(sel).spec_has_note(u) || u
                        == "addedDarkAges-base"@,
                forall|i2: int|
                    old(sel).piles@.len() <= i2 < sel.piles@.len() ==> (
                    #[trigger] sel.piles@[i2]) < self.state.piles@.len()
                        && self.state.piles@[sel.piles@[i2] as int].card_group@
                        == "DarkAges-base"@,
                forall|q: usize|
                    has_tag(sel.tags@, q, "Bane"@) <==> has_tag(old(sel).tags@, q, "Bane"@),
                forall|j: int|
                    0 <= j < i && crate::cards::has_str(
                        self.state.piles@[(#[trigger] sel.piles@[j]) as int].keywords@,
                        "+point"@,
                    ) ==> crate::cards::has_str(sel.need_items@, "points(shield) tokens"@),
                forall|j: int|
                    0 <= j < i && spec_pile_has_debt(
                        self.state.piles@[(#[trigger] sel.piles@[j]) as int],
                    ) ==> crate::cards::has_str(sel.need_items@, "debt tokens"@),
                forall|j: int|
                    0 <= j < i && (crate::cards::has_str(
                        self.state.piles@[(#[trigger] sel.piles@[j]) as int].keywords@,
                        "+coffers"@,
                    ) || crate::cards::has_str(
                        self.state.piles@[sel.piles@[j] as int].keywords@,
                        "+villagers"@,
                    )) ==> crate::cards::has_str(sel.need_items@, "coin tokens"@)
                        && crate::cards::has_str(sel.need_items@, "coffers/villagers mat"@),
                forall|j: int|
                    0 <= j < i && crate::cards::has_str(
                        self.state.piles@[(#[trigger] sel.piles@[j]) as int].types@,
                        "Heirloom"@,
                    ) ==> has_tag(
                        sel.tags@,
                        sel.piles@[j],
                        "Replaces one Copper in starting deck"@,
                    ),
            decreases n2 - i,
        {
            let idx = sel.piles[i];
            let ghost d5 = *sel;
            let mut item_added = false;
            if crate::cards::contains_str(&self.state.piles[idx].keywords, "+point") {
                sel.add_item("points(shield) tokens");
                item_added = true;
            }
            let ghost d6 = *sel;
            let mut has_debt = false;
            let nc = self.state.piles[idx].costs.len();
            let mut ci: usize = 0;
            while ci < nc
                invariant
                    0 <= ci <= nc,
                    idx < self.state.piles@.len(),
                    nc == self.state.piles@[idx as int].costs@.len(),
                    *sel == d6,
                    has_debt ==> spec_pile_has_debt(self.state.piles@[idx as int]),
                    !has_debt ==> forall|c2: int|
                        0 <= c2 < ci ==> !((#[trigger] self.state.piles@[idx as int].costs@[c2]).debt
                            is Some),
                decreases nc - ci,
            {
                if self.state.piles[idx].costs.index(ci).has_debt() {
                    has_debt = true;
                }
                ci += 1;
            }
            proof {
                if !has_debt {
                    assert(!spec_pile_has_debt(self.state.piles@[idx as int]));
                }
            }
            if has_debt {
                sel.add_item("debt tokens");
            }
            if crate::cards::contains_str(&self.state.piles[idx].keywords, "+coffers") {
                sel.add_item("coin tokens");
                sel.add_item("coffers/villagers mat");
            }
            if crate::cards::contains_str(&self.state.piles[idx].keywords, "+villagers") {
                sel.add_item("coin tokens");
                sel.add_item("coffers/villagers mat");
            }
            let ghost d7 = *sel;
            proof {
                crate::selection::lemma_same_fields_wf(d5, d7, *self);
            }
            if crate::cards::contains_str(&self.state.piles[idx].types, "Heirloom") {
                let ghost d8 = *sel;
                sel.tag_pile(idx, "Replaces one Copper in starting deck");
                proof {
                    reveal_strlit("Replaces one Copper in starting deck");
                    crate::selection::lemma_not_bane("Replaces one Copper in starting deck"@);
                    crate::selection::lemma_tag_wf(
                        d8,
                        *sel,
                        *self,
                        idx,
                        "Replaces one Copper in starting deck"@,
                    );
                    assert forall|q: usize|
                        has_tag(sel.tags@, q, "Bane"@) <==> has_tag(
                            old(sel).tags@,
                            q,
                            "Bane"@,
                        ) by {
                        assert(has_tag(sel.tags@, q, "Bane"@) <==> has_tag(
                            d8.tags@,
                            q,
                            "Bane"@,
                        ));
                    }
                }
            }
            proof {
                let gi = i as int;
                assert forall|j: int|
                    0 <= j < gi + 1 && crate::cards::has_str(
                        self.state.piles@[(#[trigger] sel.piles@[j]) as int].keywords@,
                        "+point"@,
                    ) implies crate::cards::has_str(
                    sel.need_items@,
                    "points(shield) tokens"@,
                ) by {
                    if j < gi {
                        assert(crate::cards::has_str(d5.need_items@, "points(shield) tokens"@));
                    }
                }
                assert forall|j: int|
                    0 <= j < gi + 1 && spec_pile_has_debt(
                        self.state.piles@[(#[trigger] sel.piles@[j]) as int],
                    ) implies crate::cards::has_str(sel.need_items@, "debt tokens"@) by {
                    if j < gi {
                        assert(crate::cards::has_str(d5.need_items@, "debt tokens"@));
                    }
                }
                assert forall|j: int|
                    0 <= j < gi + 1 && (crate::cards::has_str(
                        self.state.piles@[(#[trigger] sel.piles@[j]) as int].keywords@,
                        "+coffers"@,
                    ) || crate::cards::has_str(
                        self.state.piles@[sel.piles@[j] as int].keywords@,
                        "+villagers"@,
                    )) implies crate::cards::has_str(sel.need_items@, "coin tokens"@)
                    && crate::cards::has_str(sel.need_items@, "coffers/villagers mat"@) by {
                    if j < gi {
                        assert(crate::cards::has_str(d5.need_items@, "coin tokens"@));
                        assert(crate::cards::has_str(d5.need_items@, "coffers/villagers mat"@));
                    }
                }
                assert forall|j: int|
                    0 <= j < gi + 1 && crate::cards::has_str(
                        self.state.piles@[(#[trigger] sel.piles@[j]) as int].types@,
                        "Heirloom"@,
                    ) implies has_tag(
                    sel.tags@,
                    sel.piles@[j],
                    "Replaces one Copper in starting deck"@,
                ) by {
                    if j < gi {
                        assert(has_tag(
                            d5.tags@,
                            sel.piles@[j],
                            "Replaces one Copper in starting deck"@,
                        ));
                    }
                }
            }
            i += 1;
        }
        proof {
            assert(spec_darkages_law(*self, *old(sel), *sel, *old(rand), *rand)) by {
                assert(sel.piles@ == d4.piles@);
                assert(sel.notes@ == d4.notes@);
                assert(forall|t: Seq<char>|
                    sel.spec_has_note(t) == d4.spec_has_note(t));
            }
        }
    }

    /// The whole run over a prepared catalog: start the draft, honour the
    /// inclusion list, search, and run the post-passes.
    pub fn generate_selection(
        &self,
        market_cap: u8,
        landscapes: u8,
        includes: &Vec<usize>,
        cons: &Vec<Constraint>,
        rand: &mut BadRand,
    ) -> (r: Result<SelectionPtr, String>)
        requires
            spec_piles_wf(self.state.piles@),
            cons_wf(cons@, *self),
            forall|i: int| 0 <= i < includes@.len() ==> (#[trigger] includes@[i]) < self.state.piles@.len(),
        ensures
            r matches Ok(sel) ==> {
                &&& sel.state.wf(*self)
                &&& sel.state.initial_cards@ == (if market_cap == 0 {
                    10u8
                } else {
                    market_cap
                })
                &&& exists|mid: SelectionState|
                    #[trigger] spec_generated_from(sel.state, mid, cons@, *self)
            },
            r matches Ok(sel) ==> forall|i: int|
                0 <= i < self.state.piles@.len() && (#[trigger] self.state.piles@[i]).card_group@
                    == "base"@ ==> sel.state.piles@.contains(i as usize),
            r matches Ok(sel) ==> forall|i: int|
                0 <= i < includes@.len() ==> sel.state.piles@.contains(#[trigger] includes@[i])
                    || self.state.piles@[includes@[i] as int].spec_is_normal(),
    {
        let mut sel = match self.start_selection(market_cap, landscapes) {
            Some(s) => s,
            None => {
                return Err(String::new());
            },
        };
        let ni = includes.len();
        let mut i: usize = 0;
        while i < ni
            invariant
                0 <= i <= ni,
                ni == includes@.len(),
                spec_piles_wf(self.state.piles@),
                cons_wf(cons@, *self),
                forall|j: int|
                    0 <= j < includes@.len() ==> (#[trigger] includes@[j])
                        < self.state.piles@.len(),
                sel.wf(*self),
                sel.initial_cards@ == (if market_cap == 0 {
                    10u8
                } else {
                    market_cap
                }),
                forall|ii: int|
                    0 <= ii < self.state.piles@.len() && (
                    #[trigger] self.state.piles@[ii]).card_group@ == "base"@
                        ==> sel.piles@.contains(ii as usize),
                forall|ii: int|
                    0 <= ii < i ==> sel.piles@.contains(#[trigger] includes@[ii])
                        || self.state.piles@[includes@[ii] as int].spec_is_normal(),
            decreases ni - i,
        {
            let p = includes[i];
            let ghost d0 = sel;
            let added = sel.add_pile(p, self);
            let ghost d1 = sel;
            sel.tag_pile(p, "<why?--included>");
            proof {
                if added {
                    lemma_add_pile_wf(d0, d1, *self, p);
                }
                assert forall|ii: int|
                    0 <= ii < self.state.piles@.len() && (
                    #[trigger] self.state.piles@[ii]).card_group@ == "base"@ implies
                    sel.piles@.contains(ii as usize) by {
                    if added {
                        crate::selection::lemma_push_keeps_contains(d0.piles@, p, ii as usize);
                    }
                }
                assert forall|ii: int|
                    0 <= ii < i + 1 implies sel.piles@.contains(#[trigger] includes@[ii])
                    || self.state.piles@[includes@[ii] as int].spec_is_normal() by {
                    if ii < i as int {
                        if added && d0.piles@.contains(includes@[ii]) {
                            crate::selection::lemma_push_keeps_contains(
                                d0.piles@,
                                p,
                                includes@[ii],
                            );
                        }
                    } else {
                        if added {
                            assert(sel.piles@[sel.piles@.len() - 1] == p);
                        } else {
                            assert(d0.piles@.contains(p)
                                || self.state.piles@[p as int].spec_is_normal());
                        }
                    }
                }
                reveal_strlit("<why?--included>");
                crate::selection::lemma_not_bane("<why?--included>"@);
                crate::selection::lemma_tag_wf(d1, sel, *self, p, "<why?--included>"@);
            }
            i += 1;
        }
        let npiles = self.state.piles.len();
        let fuel: u64 = if npiles > 1_000_000_000 {
            4_000_000_064
        } else {
            (npiles as u64) * 4 + 64
        };
        let ghost gsel = sel;
        let res = self.build_selection(SelectionPtr::from_state(sel), cons, fuel);
        match res {
            Ok(done) => {
                let ghost mid = done.state;
                let mut st = done.state;
                self.finish_selection(&mut st, rand);
                proof {
                    assert(spec_build_ok(mid, mid, cons@, *self)) by {
                        assert(seq_prefix(mid.piles@, mid.piles@));
                        crate::constraints::lemma_notes_sub_eq(mid, mid);
                    }
                    assert(spec_generated_from(st, mid, cons@, *self));
                    assert forall|i: int|
                        0 <= i < self.state.piles@.len() && (
                        #[trigger] self.state.piles@[i]).card_group@ == "base"@ implies
                        st.piles@.contains(i as usize) by {
                        assert(gsel.piles@.contains(i as usize));
                        crate::constraints::lemma_prefix_contains(
                            gsel.piles@,
                            mid.piles@,
                            i as usize,
                        );
                        crate::constraints::lemma_prefix_contains(
                            mid.piles@,
                            st.piles@,
                            i as usize,
                        );
                    }
                    assert forall|i: int|
                        0 <= i < includes@.len() implies st.piles@.contains(
                        #[trigger] includes@[i],
                    ) || self.state.piles@[includes@[i] as int].spec_is_normal() by {
                        if gsel.piles@.contains(includes@[i]) {
                            crate::constraints::lemma_prefix_contains(
                                gsel.piles@,
                                mid.piles@,
                                includes@[i],
                            );
                            crate::constraints::lemma_prefix_contains(
                                mid.piles@,
                                st.piles@,
                                includes@[i],
                            );
                        }
                    }
                }
                Ok(SelectionPtr::from_state(st))
            },
            Err(e) => Err(e),
        }
    }
}

} // verus!
