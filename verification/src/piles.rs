//! Piles: all the cards sharing a pile name, with the pile-wide unions
//! of their attributes, and the (group, name) ordering used to list them.

use vstd::prelude::*;

use crate::cards::{has_str, spec_paren_ok, Card};
use crate::costs::{spec_shape_rep, Cost, CostSet, CostTarget};
use crate::strutil::{spec_str_le, str_eq, str_le};

verus! {

/// `post` holds exactly the strings of `pre` and of `src`.
pub open spec fn str_union(post: Seq<String>, pre: Seq<String>, src: Seq<String>) -> bool {
    forall|t: Seq<char>| has_str(post, t) <==> (has_str(pre, t) || has_str(src, t))
}

/// Add a string to a list unless an equal one is already there.
pub fn insert_str(v: &mut Vec<String>, s: &str)
    ensures
        forall|t: Seq<char>| has_str(final(v)@, t) <==> (has_str(old(v)@, t) || t == s@),
{
    if !crate::cards::contains_str(v, s) {
        let ghost pre = v@;
        v.push(s.to_owned());
        proof {
            assert forall|t: Seq<char>| has_str(v@, t) <==> (has_str(pre, t) || t == s@) by {
                if has_str(pre, t) {
                    let i = choose|i: int| 0 <= i < pre.len() && pre[i]@ == t;
                    assert(v@[i]@ == t);
                }
                if t == s@ {
                    assert(v@[pre.len() as int]@ == t);
                }
                if has_str(v@, t) {
                    let i = choose|i: int| 0 <= i < v@.len() && v@[i]@ == t;
                    if i < pre.len() {
                        assert(pre[i]@ == t);
                    }
                }
            }
        }
    }
}

/// Union one list of strings into another, keeping entries unique.
pub fn insert_all(v: &mut Vec<String>, src: &Vec<String>)
    ensures
        str_union(final(v)@, old(v)@, src@),
{
    let n = src.len();
    let mut i: usize = 0;
    while i < n
        invariant
            0 <= i <= n,
            n == src@.len(),
            forall|t: Seq<char>|
                has_str(v@, t) <==> (has_str(old(v)@, t) || exists|j: int|
                    0 <= j < i && src@[j]@ == t),
        decreases n - i,
    {
        let ghost mid = v@;
        insert_str(v, src[i].as_str());
        proof {
            assert forall|t: Seq<char>|
                has_str(v@, t) <==> (has_str(old(v)@, t) || exists|j: int|
                    0 <= j < i + 1 && src@[j]@ == t) by {
                if has_str(v@, t) {
                    assert(has_str(mid, t) || t == src@[i as int]@);
                }
                if exists|j: int| 0 <= j < i + 1 && src@[j]@ == t {
                    let j = choose|j: int| 0 <= j < i + 1 && src@[j]@ == t;
                    if j < i {
                        assert(has_str(mid, t));
                    }
                }
            }
        }
        i += 1;
    }
    proof {
        assert forall|t: Seq<char>|
            has_str(v@, t) <==> (has_str(old(v)@, t) || has_str(src@, t)) by {
            if has_str(src@, t) {
                let j = choose|j: int| 0 <= j < src@.len() && src@[j]@ == t;
            }
        }
    }
}

/// One supply stack: every card of the pile name, with the unions of the
/// cards' attributes.
pub struct Pile {
    pub name: String,
    pub card_group: String,
    pub supply: bool,
    pub kingdom: bool,
    pub types: Vec<String>,
    pub costs: CostSet,
    pub keywords: Vec<String>,
    pub kw_interactions: Vec<String>,
    pub other_interactions: Vec<String>,
    pub cards: Vec<Card>,
    pub targets: Vec<CostTarget>,
}

impl Pile {
    /// Every structured interaction string in the pile and in its cards
    /// is balanced.
    pub open spec fn wf(self) -> bool {
        &&& forall|i: int|
            0 <= i < self.other_interactions@.len() ==> spec_paren_ok(
                #[trigger] self.other_interactions@[i]@,
            )
        &&& forall|j: int| 0 <= j < self.cards@.len() ==> (#[trigger] self.cards@[j]).wf()
    }

    pub open spec fn spec_has_type(self, t: Seq<char>) -> bool {
        has_str(self.types@, t)
    }

    pub open spec fn spec_has_keyword(self, t: Seq<char>) -> bool {
        has_str(self.keywords@, t)
    }

    pub open spec fn spec_has_kw_interaction(self, t: Seq<char>) -> bool {
        has_str(self.kw_interactions@, t)
    }

    pub open spec fn spec_has_other_interaction(self, t: Seq<char>) -> bool {
        has_str(self.other_interactions@, t)
    }

    /// Whether the pile counts against the ten-pile supply cap.
    pub open spec fn spec_is_normal(self) -> bool {
        self.supply && self.kingdom
    }

    pub fn new(name: &str) -> (r: Pile)
        ensures
            r.name@ == name@,
            r.card_group@ == Seq::<char>::empty(),
            !r.supply,
            !r.kingdom,
            r.types@ == Seq::<String>::empty(),
            r.costs@ == Seq::<Cost>::empty(),
            r.keywords@ == Seq::<String>::empty(),
            r.kw_interactions@ == Seq::<String>::empty(),
            r.other_interactions@ == Seq::<String>::empty(),
            r.cards@ == Seq::<Card>::empty(),
            r.targets@ == Seq::<CostTarget>::empty(),
            r.wf(),
    {
        Pile {
            name: name.to_owned(),
            card_group: String::new(),
            supply: false,
            kingdom: false,
            types: Vec::new(),
            costs: CostSet::new(),
            keywords: Vec::new(),
            kw_interactions: Vec::new(),
            other_interactions: Vec::new(),
            cards: Vec::new(),
            targets: Vec::new(),
        }
    }

    /// Add a target unless one with the same canonical string is there.
    fn add_cost_target(v: &mut Vec<CostTarget>, new_target: &CostTarget)
        ensures
            (final(v)@ == old(v)@ && crate::selection::rep_present(
                old(v)@,
                spec_shape_rep(new_target@),
            )) || (final(v)@.len() == old(v)@.len() + 1 && final(v)@.subrange(
                0,
                old(v)@.len() as int,
            ) == old(v)@ && final(v)@.last()@ == new_target@),
    {
        let n = v.len();
        let mut i: usize = 0;
        while i < n
            invariant
                0 <= i <= n,
                n == v@.len(),
                v@ == old(v)@,
            decreases n - i,
        {
            if str_eq(v[i].str_rep().as_str(), new_target.str_rep().as_str()) {
                proof {
                    assert(spec_shape_rep(v@[i as int]@) == spec_shape_rep(new_target@));
                }
                return ;
            }
            i += 1;
        }
        v.push(new_target.clone());
        proof {
            assert(v@.subrange(0, old(v)@.len() as int) =~= old(v)@);
        }
    }

    /// Fold one card into the pile: attribute unions, flag disjunctions,
    /// the card list, and the deduplicated targets. A card whose name is
    /// already present changes nothing.
    pub fn add_card(&mut self, c: Card)
        requires
            c.wf(),
        ensures
            final(self).name == old(self).name,
            old(self).wf() ==> final(self).wf(),
            (exists|j: int|
                0 <= j < old(self).cards@.len() && (#[trigger] old(self).cards@[j]).name@
                    == c.name@) ==> *final(self) == *old(self),
            !(exists|j: int|
                0 <= j < old(self).cards@.len() && (#[trigger] old(self).cards@[j]).name@
                    == c.name@) ==> {
                &&& final(self).cards@ == old(self).cards@.push(c)
                &&& final(self).card_group@ == c.card_group@
                &&& final(self).supply == (old(self).supply || c.supply)
                &&& final(self).kingdom == (old(self).kingdom || c.kingdom)
                &&& str_union(final(self).types@, old(self).types@, c.types@)
                &&& str_union(final(self).keywords@, old(self).keywords@, c.keywords@)
                &&& str_union(
                    final(self).kw_interactions@,
                    old(self).kw_interactions@,
                    c.kw_interactions@,
                )
                &&& str_union(
                    final(self).other_interactions@,
                    old(self).other_interactions@,
                    c.other_interactions@,
                )
                &&& (forall|x: Cost|
                    final(self).costs@.contains(x) <==> (old(self).costs@.contains(x) || x
                        == c.cost))
                &&& crate::selection::rep_union(
                    final(self).targets@,
                    old(self).targets@,
                    c.cost_targets@,
                )
            },
    {
        let ncards = self.cards.len();
        let mut i: usize = 0;
        while i < ncards
            invariant
                0 <= i <= ncards,
                ncards == self.cards@.len(),
                forall|j: int| 0 <= j < i ==> (#[trigger] self.cards@[j]).name@ != c.name@,
            decreases ncards - i,
        {
            if str_eq(c.name.as_str(), self.cards[i].name.as_str()) {
                return ;
            }
            i += 1;
        }
        insert_all(&mut self.types, &c.types);
        self.costs.insert(c.cost);
        proof {
            lemma_costset_insert_contains(old(self).costs@, self.costs@, c.cost);
        }
        insert_all(&mut self.keywords, &c.keywords);
        insert_all(&mut self.kw_interactions, &c.kw_interactions);
        let ghost oi_pre = self.other_interactions@;
        insert_all(&mut self.other_interactions, &c.other_interactions);
        self.card_group = c.card_group.clone();
        self.supply = c.supply || self.supply;
        self.kingdom = c.kingdom || self.kingdom;
        let tn = c.cost_targets.len();
        let mut i: usize = 0;
        let ghost snap = *self;
        let ghost targets_pre = self.targets@;
        while i < tn
            invariant
                0 <= i <= tn,
                tn == c.cost_targets@.len(),
                self.name == snap.name,
                self.card_group == snap.card_group,
                self.supply == snap.supply,
                self.kingdom == snap.kingdom,
                self.types == snap.types,
                self.costs == snap.costs,
                self.keywords == snap.keywords,
                self.kw_interactions == snap.kw_interactions,
                self.other_interactions == snap.other_interactions,
                self.cards == snap.cards,
                crate::selection::reps_upto(self.targets@, targets_pre, c.cost_targets@, i as int),
            decreases tn - i,
        {
            let ghost mid = self.targets@;
            Pile::add_cost_target(&mut self.targets, &c.cost_targets[i]);
            proof {
                let found = self.targets@ == mid;
                crate::selection::lemma_rep_step(
                    targets_pre,
                    mid,
                    self.targets@,
                    c.cost_targets@,
                    i as int,
                    found,
                );
            }
            i += 1;
        }
        proof {
            assert forall|rep: Seq<char>|
                crate::selection::rep_present(self.targets@, rep) <==> (
                crate::selection::rep_present(targets_pre, rep)
                    || crate::selection::rep_present(c.cost_targets@, rep)) by {
                assert(crate::selection::rep_present(self.targets@, rep) <==> (
                crate::selection::rep_present(targets_pre, rep) || exists|j: int|
                    0 <= j < tn && spec_shape_rep(#[trigger] c.cost_targets@[j]@) == rep));
                if crate::selection::rep_present(c.cost_targets@, rep) {
                    let j = choose|j: int|
                        0 <= j < c.cost_targets@.len() && spec_shape_rep(c.cost_targets@[j]@)
                            == rep;
                    assert(spec_shape_rep(c.cost_targets@[j]@) == rep);
                }
                if exists|j: int|
                    0 <= j < tn && spec_shape_rep(#[trigger] c.cost_targets@[j]@) == rep {
                    let j = choose|j: int|
                        0 <= j < tn && spec_shape_rep(#[trigger] c.cost_targets@[j]@) == rep;
                    assert(crate::selection::rep_present(c.cost_targets@, rep));
                }
            }
        }
        self.cards.push(c);
        proof {
            if old(self).wf() {
                assert forall|j: int|
                    0 <= j < self.cards@.len() implies (#[trigger] self.cards@[j]).wf() by {
                    if j < old(self).cards@.len() {
                        assert(old(self).cards@[j].wf());
                    }
                }
            }
            assert(str_union(self.types@, old(self).types@, c.types@));
            assert(str_union(self.keywords@, old(self).keywords@, c.keywords@));
            assert(str_union(self.kw_interactions@, old(self).kw_interactions@, c.kw_interactions@));
            assert(str_union(
                self.other_interactions@,
                old(self).other_interactions@,
                c.other_interactions@,
            ));
            if old(self).wf() {
                assert forall|k: int|
                    0 <= k < self.other_interactions@.len() implies spec_paren_ok(
                    #[trigger] self.other_interactions@[k]@,
                ) by {
                    let t = self.other_interactions@[k]@;
                    assert(has_str(self.other_interactions@, t));
                    assert(has_str(oi_pre, t) || has_str(c.other_interactions@, t));
                    if has_str(oi_pre, t) {
                        let j = choose|j: int| 0 <= j < oi_pre.len() && oi_pre[j]@ == t;
                        assert(spec_paren_ok(oi_pre[j]@));
                    } else {
                        assert(has_str(c.other_interactions@, t));
                        let j = choose|j: int|
                            0 <= j < c.other_interactions@.len() && c.other_interactions@[j]@ == t;
                        assert(spec_paren_ok(c.other_interactions@[j]@));
                    }
                }
            }
        }
    }

    pub fn get_card_group(&self) -> (r: &str)
        ensures
            r@ == self.card_group@,
    {
        self.card_group.as_str()
    }

    pub fn get_supply(&self) -> (r: bool)
        ensures
            r == self.supply,
    {
        self.supply
    }

    pub fn get_kingdom(&self) -> (r: bool)
        ensures
            r == self.kingdom,
    {
        self.kingdom
    }

    pub fn get_types(&self) -> (r: &Vec<String>)
        ensures
            r == &self.types,
    {
        &self.types
    }

    pub fn get_costs(&self) -> (r: &CostSet)
        ensures
            r == &self.costs,
    {
        &self.costs
    }

    pub fn get_keywords(&self) -> (r: &Vec<String>)
        ensures
            r == &self.keywords,
    {
        &self.keywords
    }

    pub fn get_kw_interactions(&self) -> (r: &Vec<String>)
        ensures
            r == &self.kw_interactions,
    {
        &self.kw_interactions
    }

    pub fn get_other_interactions(&self) -> (r: &Vec<String>)
        ensures
            r == &self.other_interactions,
    {
        &self.other_interactions
    }

    pub fn get_name(&self) -> (r: &str)
        ensures
            r@ == self.name@,
    {
        self.name.as_str()
    }

    pub fn get_cards(&self) -> (r: &Vec<Card>)
        ensures
            r == &self.cards,
    {
        &self.cards
    }

    pub fn get_targets(&self) -> (r: &Vec<CostTarget>)
        ensures
            r == &self.targets,
    {
        &self.targets
    }
}

pub proof fn lemma_costset_insert_contains(pre: Seq<Cost>, post: Seq<Cost>, c: Cost)
    requires
        (pre.contains(c) && post == pre) || (!pre.contains(c) && post == pre.push(c)),
    ensures
        forall|x: Cost| post.contains(x) <==> (pre.contains(x) || x == c),
{
    assert forall|x: Cost| post.contains(x) <==> (pre.contains(x) || x == c) by {
        if !pre.contains(c) {
            if pre.contains(x) {
                let i = choose|i: int| 0 <= i < pre.len() && pre[i] == x;
                assert(post[i] == x);
            }
            if x == c {
                assert(post[pre.len() as int] == x);
            }
            if post.contains(x) {
                let i = choose|i: int| 0 <= i < post.len() && post[i] == x;
                if i < pre.len() {
                    assert(pre[i] == x);
                }
            }
        }
    }
}

/// Piles are listed in plain vectors.
pub type Piles = Vec<Pile>;

/// The (group, name) order in which piles are listed.
pub open spec fn spec_pile_le(a: Pile, b: Pile) -> bool {
    if a.card_group@ != b.card_group@ {
        spec_str_le(a.card_group@, b.card_group@)
    } else {
        spec_str_le(a.name@, b.name@)
    }
}

/// `a` sorts at or before `b`, by group and then by name.
pub fn pile_le(a: &Pile, b: &Pile) -> (r: bool)
    ensures
        r == spec_pile_le(*a, *b),
{
    if !str_eq(a.card_group.as_str(), b.card_group.as_str()) {
        str_le(a.card_group.as_str(), b.card_group.as_str())
    } else {
        str_le(a.name.as_str(), b.name.as_str())
    }
}

/// Any two piles are comparable in the (group, name) order.
pub proof fn lemma_pile_le_total(a: Pile, b: Pile)
    ensures
        spec_pile_le(a, b) || spec_pile_le(b, a),
{
    if a.card_group@ != b.card_group@ {
        crate::strutil::lemma_str_le_total(a.card_group@, b.card_group@);
    } else {
        crate::strutil::lemma_str_le_total(a.name@, b.name@);
    }
}

/// The (group, name) order is transitive.
pub proof fn lemma_pile_le_trans(a: Pile, b: Pile, c: Pile)
    requires
        spec_pile_le(a, b),
        spec_pile_le(b, c),
    ensures
        spec_pile_le(a, c),
{
    if a.card_group@ == b.card_group@ && b.card_group@ == c.card_group@ {
        crate::strutil::lemma_str_le_trans(a.name@, b.name@, c.name@);
    } else if a.card_group@ == b.card_group@ {
    } else if b.card_group@ == c.card_group@ {
    } else {
        crate::strutil::lemma_str_le_trans(a.card_group@, b.card_group@, c.card_group@);
        if a.card_group@ == c.card_group@ {
            crate::strutil::lemma_str_le_antisym(a.card_group@, b.card_group@);
        }
    }
}

/// A pile wrapped for ordering by group and then name.
pub struct SortablePile {
    pub p: Pile,
}

impl SortablePile {
    /// `self` sorts at or before `other`.
    pub fn le(&self, other: &SortablePile) -> (r: bool)
        ensures
            r == spec_pile_le(self.p, other.p),
    {
        pile_le(&self.p, &other.p)
    }
}

} // verus!
