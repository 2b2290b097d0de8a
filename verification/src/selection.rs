//! The evolving draft of chosen piles with its derived caches: counts,
//! notes, tags, supply costs, keyword tallies and pending cost targets.

use vstd::prelude::*;

use crate::cards::has_str;
use crate::collection::{CardColl, CollectionIterator};
use crate::costs::{spec_shape_rep, Cost, CostSet, CostTarget};
use crate::piles::Pile;
use crate::strutil::{push_char, spec_starts_with, starts_with, str_eq};

verus! {

/// A key occurs in the tally list.
pub open spec fn key_present(v: Seq<(String, u64)>, t: Seq<char>) -> bool {
    exists|i: int| 0 <= i < v.len() && v[i].0@ == t
}

/// `post` has exactly the keys of `pre` plus `k`.
pub open spec fn key_added(post: Seq<(String, u64)>, pre: Seq<(String, u64)>, k: Seq<char>) -> bool {
    forall|t: Seq<char>| key_present(post, t) <==> (key_present(pre, t) || t == k)
}

/// The tally the list holds for a key: the first matching entry's count,
/// or zero.
pub open spec fn key_count(v: Seq<(String, u64)>, t: Seq<char>) -> int
    decreases v.len(),
{
    if v.len() == 0 {
        0
    } else if v[0].0@ == t {
        v[0].1 as int
    } else {
        key_count(v.drop_first(), t)
    }
}

/// One saturating increment of a tally.
pub open spec fn spec_tick(c: int) -> int {
    if c < 0xffff_ffff_ffff_ffff {
        c + 1
    } else {
        c
    }
}

/// `n` saturating increments.
pub open spec fn spec_tick_n(c: int, n: int) -> int
    decreases n,
{
    if n <= 0 {
        c
    } else {
        spec_tick(spec_tick_n(c, n - 1))
    }
}

/// Occurrences of a string among the words.
pub open spec fn seq_str_count(words: Seq<String>, t: Seq<char>) -> int
    decreases words.len(),
{
    if words.len() == 0 {
        0
    } else {
        seq_str_count(words.drop_last(), t) + if words.last()@ == t {
            1int
        } else {
            0int
        }
    }
}

/// Occurrences of `react(t)` among the interaction strings.
pub open spec fn seq_react_count(inters: Seq<String>, t: Seq<char>) -> int
    decreases inters.len(),
{
    if inters.len() == 0 {
        0
    } else {
        seq_react_count(inters.drop_last(), t) + if inters.last()@ == spec_react_string(t) {
            1int
        } else {
            0int
        }
    }
}

/// An occurrence count is never negative.
pub proof fn lemma_seq_str_count_nonneg(words: Seq<String>, t: Seq<char>)
    ensures
        seq_str_count(words, t) >= 0,
    decreases words.len(),
{
    if words.len() > 0 {
        lemma_seq_str_count_nonneg(words.drop_last(), t);
    }
}

/// A react-occurrence count is never negative.
pub proof fn lemma_seq_react_count_nonneg(inters: Seq<String>, t: Seq<char>)
    ensures
        seq_react_count(inters, t) >= 0,
    decreases inters.len(),
{
    if inters.len() > 0 {
        lemma_seq_react_count_nonneg(inters.drop_last(), t);
    }
}

/// Increment batches compose.
pub proof fn lemma_tick_n_add(c: int, a: int, b: int)
    requires
        a >= 0,
        b >= 0,
    ensures
        spec_tick_n(spec_tick_n(c, a), b) == spec_tick_n(c, a + b),
    decreases b,
{
    if b > 0 {
        lemma_tick_n_add(c, a, b - 1);
    }
}

/// Before the first matching entry a tally scan may be started anywhere.
proof fn lemma_key_count_skip(v: Seq<(String, u64)>, t: Seq<char>, i: int)
    requires
        0 <= i <= v.len(),
        forall|j: int| 0 <= j < i ==> (#[trigger] v[j]).0@ != t,
    ensures
        key_count(v, t) == key_count(v.skip(i), t),
    decreases i,
{
    if i == 0 {
        assert(v.skip(0) =~= v);
    } else {
        assert(v.skip(1) =~= v.drop_first());
        assert forall|j: int| 0 <= j < i - 1 implies (#[trigger] v.drop_first()[j]).0@ != t by {
            assert(v.drop_first()[j] == v[j + 1]);
        }
        lemma_key_count_skip(v.drop_first(), t, i - 1);
        assert(v.drop_first().skip(i - 1) =~= v.skip(i));
        assert(v[0].0@ != t);
    }
}

/// Entries with other keys do not move a key's tally.
proof fn lemma_key_count_agree(v1: Seq<(String, u64)>, v2: Seq<(String, u64)>, t: Seq<char>)
    requires
        v1.len() == v2.len(),
        forall|j: int|
            0 <= j < v1.len() ==> (((#[trigger] v1[j]).0@ == t) == ((#[trigger] v2[j]).0@ == t)
                && (v1[j].0@ == t ==> v1[j].1 == v2[j].1)),
    ensures
        key_count(v1, t) == key_count(v2, t),
    decreases v1.len(),
{
    if v1.len() > 0 {
        if v1[0].0@ == t {
        } else {
            assert forall|j: int|
                0 <= j < v1.drop_first().len() implies (((#[trigger] v1.drop_first()[j]).0@ == t)
                == ((#[trigger] v2.drop_first()[j]).0@ == t) && (v1.drop_first()[j].0@ == t
                ==> v1.drop_first()[j].1 == v2.drop_first()[j].1)) by {
                assert(v1.drop_first()[j] == v1[j + 1]);
                assert(v2.drop_first()[j] == v2[j + 1]);
            }
            lemma_key_count_agree(v1.drop_first(), v2.drop_first(), t);
        }
    }
}

/// Appending an entry with another key keeps a key's tally.
proof fn lemma_key_count_push(v: Seq<(String, u64)>, x: (String, u64), t: Seq<char>)
    requires
        x.0@ != t,
    ensures
        key_count(v.push(x), t) == key_count(v, t),
    decreases v.len(),
{
    if v.len() == 0 {
        assert(v.push(x).len() == 1);
        assert(v.push(x)[0] == x);
        assert(v.push(x).drop_first() =~= Seq::<(String, u64)>::empty());
        assert(key_count(v.push(x), t) == key_count(v.push(x).drop_first(), t));
        assert(key_count(v.push(x).drop_first(), t) == 0);
    } else {
        assert(v.push(x)[0] == v[0]);
        assert(v.push(x).drop_first() =~= v.drop_first().push(x));
        lemma_key_count_push(v.drop_first(), x, t);
        if v[0].0@ == t {
            assert(key_count(v.push(x), t) == v[0].1 as int);
        } else {
            assert(key_count(v.push(x), t) == key_count(v.push(x).drop_first(), t));
            assert(key_count(v.push(x).drop_first(), t) == key_count(
                v.drop_first().push(x),
                t,
            ));
        }
    }
}

/// A pile is tagged with the given explanation.
pub open spec fn has_tag(tags: Seq<(usize, Vec<String>)>, p: usize, t: Seq<char>) -> bool {
    exists|i: int| 0 <= i < tags.len() && tags[i].0 == p && has_str(tags[i].1@, t)
}

/// `post` holds exactly the tags of `pre` plus `t` on pile `p`.
pub open spec fn tag_added(
    post: Seq<(usize, Vec<String>)>,
    pre: Seq<(usize, Vec<String>)>,
    p: usize,
    t: Seq<char>,
) -> bool {
    forall|q: usize, u: Seq<char>|
        has_tag(post, q, u) <==> (has_tag(pre, q, u) || (q == p && u == t))
}

/// A rep occurs among the targets.
pub open spec fn rep_present(v: Seq<CostTarget>, rep: Seq<char>) -> bool {
    exists|i: int| 0 <= i < v.len() && spec_shape_rep(v[i]@) == rep
}

/// The interaction string that asks for a keyword counterpart.
pub open spec fn spec_react_string(t: Seq<char>) -> Seq<char> {
    "react("@ + t + seq![')']
}

/// Some card of the pile is in the supply and has this cost.
pub open spec fn spec_pile_adds_cost(p: Pile, x: Cost) -> bool {
    exists|ci: int| 0 <= ci < p.cards@.len() && (#[trigger] p.cards@[ci]).supply && p.cards@[ci].cost == x
}

/// `post` holds exactly the costs of `pre` plus the supply costs of `p`.
pub open spec fn cost_union(post: Seq<Cost>, pre: Seq<Cost>, p: Pile) -> bool {
    forall|x: Cost| post.contains(x) <==> (pre.contains(x) || spec_pile_adds_cost(p, x))
}

/// `post` holds exactly the keys of `pre` plus the keywords of `p`.
pub open spec fn keys_union_kw(post: Seq<(String, u64)>, pre: Seq<(String, u64)>, p: Pile) -> bool {
    forall|t: Seq<char>| key_present(post, t) <==> (key_present(pre, t) || has_str(p.keywords@, t))
}

/// `post` holds exactly the keys of `pre` plus the keyword interactions
/// of `p`, both the direct ones and those its `react(...)` strings name.
pub open spec fn keys_union_interact(
    post: Seq<(String, u64)>,
    pre: Seq<(String, u64)>,
    p: Pile,
) -> bool {
    forall|t: Seq<char>|
        key_present(post, t) <==> (key_present(pre, t) || has_str(p.kw_interactions@, t) || has_str(
            p.other_interactions@,
            spec_react_string(t),
        ))
}

/// `post` holds exactly the reps of `pre` plus those of `src`.
pub open spec fn rep_union(post: Seq<CostTarget>, pre: Seq<CostTarget>, src: Seq<CostTarget>) -> bool {
    forall|rep: Seq<char>| rep_present(post, rep) <==> (rep_present(pre, rep) || rep_present(src, rep))
}


/// The cost set updated through the first `k` cards of a pile.
pub open spec fn costs_upto(post: Seq<Cost>, pre: Seq<Cost>, cards: Seq<crate::cards::Card>, k: int) -> bool {
    forall|x: Cost|
        post.contains(x) <==> (pre.contains(x) || exists|j: int|
            0 <= j < k && (#[trigger] cards[j]).supply && cards[j].cost == x)
}

/// The tallies updated through the first `k` words.
pub open spec fn keys_upto(post: Seq<(String, u64)>, pre: Seq<(String, u64)>, words: Seq<String>, k: int) -> bool {
    forall|t: Seq<char>|
        key_present(post, t) <==> (key_present(pre, t) || exists|j: int|
            0 <= j < k && (#[trigger] words[j])@ == t)
}

/// The tallies updated through the first `k` react interactions.
pub open spec fn reacts_upto(post: Seq<(String, u64)>, pre: Seq<(String, u64)>, inters: Seq<String>, k: int) -> bool {
    forall|t: Seq<char>|
        key_present(post, t) <==> (key_present(pre, t) || exists|j: int|
            0 <= j < k && (#[trigger] inters[j])@ == spec_react_string(t))
}

/// The target reps updated through the first `k` of a pile's targets.
pub open spec fn reps_upto(post: Seq<CostTarget>, pre: Seq<CostTarget>, src: Seq<CostTarget>, k: int) -> bool {
    forall|rep: Seq<char>|
        rep_present(post, rep) <==> (rep_present(pre, rep) || exists|j: int|
            0 <= j < k && spec_shape_rep(#[trigger] src[j]@) == rep)
}

fn assoc_increment(v: &mut Vec<(String, u64)>, key: &str)
    ensures
        key_added(final(v)@, old(v)@, key@),
        forall|t: Seq<char>|
            #[trigger] key_count(final(v)@, t) == (if t == key@ {
                spec_tick(key_count(old(v)@, t))
            } else {
                key_count(old(v)@, t)
            }),
{
    let n = v.len();
    let mut i: usize = 0;
    while i < n
        invariant
            0 <= i <= n,
            n == v@.len(),
            v@ == old(v)@,
            forall|j: int| 0 <= j < i ==> (#[trigger] v@[j]).0@ != key@,
        decreases n - i,
    {
        if str_eq(v[i].0.as_str(), key) {
            let c = v[i].1;
            let k = v[i].0.clone();
            let newc: u64 = if c < 0xffff_ffff_ffff_ffff {
                c + 1
            } else {
                c
            };
            let ghost pre = v@;
            v.set(i, (k, newc));
            proof {
                assert forall|t: Seq<char>|
                    key_present(v@, t) <==> (key_present(pre, t) || t == key@) by {
                    if key_present(pre, t) {
                        let j = choose|j: int| 0 <= j < pre.len() && pre[j].0@ == t;
                        assert(v@[j].0@ == t);
                    }
                    if t == key@ {
                        assert(v@[i as int].0@ == t);
                    }
                    if key_present(v@, t) {
                        let j = choose|j: int| 0 <= j < v@.len() && v@[j].0@ == t;
                        assert(pre[j].0@ == t);
                    }
                }
                assert forall|t: Seq<char>|
                    #[trigger] key_count(v@, t) == (if t == key@ {
                        spec_tick(key_count(pre, t))
                    } else {
                        key_count(pre, t)
                    }) by {
                    if t == key@ {
                        lemma_key_count_skip(pre, t, i as int);
                        assert forall|j: int| 0 <= j < i implies (#[trigger] v@[j]).0@ != t by {
                            assert(v@[j] == pre[j]);
                        }
                        lemma_key_count_skip(v@, t, i as int);
                        assert(pre.skip(i as int)[0] == pre[i as int]);
                        assert(v@.skip(i as int)[0] == v@[i as int]);
                        assert(key_count(pre.skip(i as int), t) == pre[i as int].1 as int);
                        assert(key_count(v@.skip(i as int), t) == newc as int);
                    } else {
                        assert forall|j: int|
                            0 <= j < pre.len() implies (((#[trigger] pre[j]).0@ == t) == ((
                        #[trigger] v@[j]).0@ == t) && (pre[j].0@ == t ==> pre[j].1 == v@[j].1)) by {
                            if j != i as int {
                                assert(v@[j] == pre[j]);
                            }
                        }
                        lemma_key_count_agree(pre, v@, t);
                    }
                }
            }
            return ;
        }
        i += 1;
    }
    let ghost pre = v@;
    v.push((key.to_owned(), 1));
    proof {
        assert forall|t: Seq<char>| key_present(v@, t) <==> (key_present(pre, t) || t == key@) by {
            if key_present(pre, t) {
                let j = choose|j: int| 0 <= j < pre.len() && pre[j].0@ == t;
                assert(v@[j].0@ == t);
            }
            if t == key@ {
                assert(v@[pre.len() as int].0@ == t);
            }
            if key_present(v@, t) {
                let j = choose|j: int| 0 <= j < v@.len() && v@[j].0@ == t;
                if j < pre.len() {
                    assert(pre[j].0@ == t);
                }
            }
        }
        assert forall|t: Seq<char>|
            #[trigger] key_count(v@, t) == (if t == key@ {
                spec_tick(key_count(pre, t))
            } else {
                key_count(pre, t)
            }) by {
            if t == key@ {
                lemma_key_count_skip(pre, t, pre.len() as int);
                assert(pre.skip(pre.len() as int) =~= Seq::<(String, u64)>::empty());
                assert(key_count(pre, t) == 0);
                assert forall|j: int| 0 <= j < pre.len() implies (#[trigger] v@[j]).0@ != t by {
                    assert(v@[j] == pre[j]);
                }
                lemma_key_count_skip(v@, t, pre.len() as int);
                assert(v@.skip(pre.len() as int)[0] == v@[pre.len() as int]);
                assert(key_count(v@.skip(pre.len() as int), t) == 1);
            } else {
                lemma_key_count_push(pre, (v@[pre.len() as int]), t);
                assert(v@ =~= pre.push(v@[pre.len() as int]));
            }
        }
    }
}

pub fn assoc_contains_key(v: &Vec<(String, u64)>, key: &str) -> (r: bool)
    ensures
        r == key_present(v@, key@),
{
    let n = v.len();
    let mut i: usize = 0;
    while i < n
        invariant
            0 <= i <= n,
            n == v@.len(),
            forall|j: int| 0 <= j < i ==> v@[j].0@ != key@,
        decreases n - i,
    {
        if str_eq(v[i].0.as_str(), key) {
            return true;
        }
        i += 1;
    }
    false
}

/// How many of the chosen piles are kingdom-and-supply piles.
pub open spec fn spec_normal_count(piles: Seq<usize>, col: Seq<Pile>) -> int
    decreases piles.len(),
{
    if piles.len() == 0 {
        0
    } else {
        spec_normal_count(piles.drop_last(), col) + if piles.last() < col.len()
            && col[piles.last() as int].spec_is_normal() {
            1int
        } else {
            0int
        }
    }
}

/// The draft state of a selection under construction.
pub struct SelectionState {
    pub piles: Vec<usize>,
    pub required_cards: u8,
    pub current_normal_pile_count: u8,
    pub notes: Vec<String>,
    pub need_items: Vec<String>,
    pub tags: Vec<(usize, Vec<String>)>,
    pub costs_in_supply: CostSet,
    pub target_check_required: bool,
    pub target_blame: String,
    pub targets: Vec<CostTarget>,
    pub interacts_keywords: Vec<(String, u64)>,
    pub keywords: Vec<(String, u64)>,
    pub begin_general: CollectionIterator,
    pub initial_cards: Ghost<u8>,
}

impl SelectionState {
    /// A note is recorded.
    pub open spec fn spec_has_note(self, t: Seq<char>) -> bool {
        has_str(self.notes@, t)
    }

    /// A pile of the catalog would make a legal bane: a kingdom-supply
    /// Action pile costing 2 or 3.
    pub open spec fn spec_bane_pile(p: Pile) -> bool {
        &&& p.spec_is_normal()
        &&& p.spec_has_type("Action"@)
        &&& (p.costs@.contains(Cost { coin: Some(2), potion: None, debt: None }) || p.costs@.contains(
            Cost { coin: Some(3), potion: None, debt: None },
        ))
    }

    /// The structural invariants of a draft: indices in range and distinct,
    /// the normal-pile count correct and capped, the supply-cost set in
    /// step with the chosen piles, the keyword tallies in step, every
    /// `added` group complete, and the bane bookkeeping linked to its note.
    pub open spec fn wf(self, col: CardColl) -> bool {
        &&& self.wf_core(col)
        &&& self.wf_bane(col)
    }

    /// The invariants that hold whatever the bane bookkeeping says.
    pub open spec fn wf_core(self, col: CardColl) -> bool {
        &&& forall|i: int| 0 <= i < self.piles@.len() ==> #[trigger] self.piles@[i] < col.state.piles@.len()
        &&& forall|i: int, j: int|
            0 <= i < j < self.piles@.len() ==> self.piles@[i] != self.piles@[j]
        &&& self.current_normal_pile_count as int == spec_normal_count(
            self.piles@,
            col.state.piles@,
        )
        &&& self.current_normal_pile_count <= self.required_cards
        &&& (forall|x: Cost|
            self.costs_in_supply@.contains(x) <==> exists|i: int|
                0 <= i < self.piles@.len() && spec_pile_adds_cost(
                    col.state.piles@[#[trigger] self.piles@[i] as int],
                    x,
                ))
        &&& (forall|t: Seq<char>|
            key_present(self.keywords@, t) <==> exists|i: int|
                0 <= i < self.piles@.len() && col.state.piles@[#[trigger] self.piles@[i] as int].spec_has_keyword(
                    t,
                ))
        &&& (forall|t: Seq<char>|
            key_present(self.interacts_keywords@, t) <==> exists|i: int|
                0 <= i < self.piles@.len()
                    && (col.state.piles@[#[trigger] self.piles@[i] as int].spec_has_kw_interaction(
                    t,
                ) || col.state.piles@[self.piles@[i] as int].spec_has_other_interaction(
                    spec_react_string(t),
                )))
        &&& self.wf_groups(col)
    }

    /// Whenever the note `added<G>` is present, every pile of group `G`
    /// that is not a kingdom-supply pile has been brought in.
    pub open spec fn wf_groups(self, col: CardColl) -> bool {
        forall|k: int|
            0 <= k < col.state.piles@.len() && !(#[trigger] col.state.piles@[k]).spec_is_normal()
                && self.spec_has_note("added"@ + col.state.piles@[k].card_group@)
                ==> self.piles@.contains(k as usize)
    }

    /// The `hasBane` note, the `Bane` tag, the widened card cap and the
    /// bane pile's nature stand or fall together.
    pub open spec fn wf_bane(self, col: CardColl) -> bool {
        if self.spec_has_note("hasBane"@) {
            &&& self.required_cards as int == self.initial_cards@ as int + 1
            &&& exists|p: usize|
                {
                    &&& #[trigger] has_tag(self.tags@, p, "Bane"@)
                    &&& self.piles@.contains(p)
                    &&& p < col.state.piles@.len()
                    &&& Self::spec_bane_pile(col.state.piles@[p as int])
                }
            &&& forall|p: usize, q: usize|
                has_tag(self.tags@, p, "Bane"@) && has_tag(self.tags@, q, "Bane"@) ==> p == q
        } else {
            &&& self.required_cards == self.initial_cards@
            &&& forall|p: usize| !#[trigger] has_tag(self.tags@, p, "Bane"@)
        }
    }

    /// Make room for one more pile; only the bane machinery does this.
    pub fn increase_required_piles(&mut self)
        requires
            old(self).required_cards < 255,
        ensures
            *final(self) == (SelectionState {
                required_cards: (old(self).required_cards + 1) as u8,
                ..*old(self)
            }),
    {
        self.required_cards = self.required_cards + 1;
    }

    pub fn contains(&self, p: usize) -> (r: bool)
        ensures
            r == self.piles@.contains(p),
    {
        let n = self.piles.len();
        let mut i: usize = 0;
        while i < n
            invariant
                0 <= i <= n,
                n == self.piles@.len(),
                forall|j: int| 0 <= j < i ==> self.piles@[j] != p,
            decreases n - i,
        {
            if self.piles[i] == p {
                assert(self.piles@[i as int] == p);
                return true;
            }
            i += 1;
        }
        false
    }

    /// Try to bring a pile into the draft. A duplicate is refused, and a
    /// kingdom-supply pile is refused when the draft is already full;
    /// nothing changes on refusal.
    pub fn add_pile(&mut self, p: usize, col: &CardColl) -> (r: bool)
        requires
            p < col.state.piles@.len(),
            col.state.piles@[p as int].wf(),
        ensures
            ({
                let pile = col.state.piles@[p as int];
                let full = pile.spec_is_normal() && old(self).current_normal_pile_count as int
                    >= old(self).required_cards as int;
                if old(self).piles@.contains(p) || full {
                    &&& r == false
                    &&& *final(self) == *old(self)
                } else {
                    &&& r == true
                    &&& final(self).piles@ == old(self).piles@.push(p)
                    &&& final(self).current_normal_pile_count as int == old(
                        self,
                    ).current_normal_pile_count as int + (if pile.spec_is_normal() {
                        1int
                    } else {
                        0int
                    })
                    &&& final(self).required_cards == old(self).required_cards
                    &&& final(self).notes == old(self).notes
                    &&& final(self).need_items == old(self).need_items
                    &&& final(self).tags == old(self).tags
                    &&& final(self).begin_general == old(self).begin_general
                    &&& final(self).initial_cards == old(self).initial_cards
                    &&& cost_union(final(self).costs_in_supply@, old(self).costs_in_supply@, pile)
                    &&& keys_union_kw(final(self).keywords@, old(self).keywords@, pile)
                    &&& keys_union_interact(
                        final(self).interacts_keywords@,
                        old(self).interacts_keywords@,
                        pile,
                    )
                    &&& (pile.targets@.len() == 0 ==> final(self).target_check_required == old(
                        self,
                    ).target_check_required && final(self).target_blame == old(self).target_blame
                        && final(self).targets == old(self).targets)
                    &&& (pile.targets@.len() > 0 ==> final(self).target_check_required && rep_union(
                        final(self).targets@,
                        old(self).targets@,
                        pile.targets@,
                    ))
                    &&& (forall|t: Seq<char>|
                        #[trigger] key_count(final(self).keywords@, t) == spec_tick_n(
                            key_count(old(self).keywords@, t),
                            seq_str_count(pile.keywords@, t),
                        ))
                    &&& (forall|t: Seq<char>|
                        #[trigger] key_count(final(self).interacts_keywords@, t) == spec_tick_n(
                            key_count(old(self).interacts_keywords@, t),
                            seq_str_count(pile.kw_interactions@, t) + seq_react_count(
                                pile.other_interactions@,
                                t,
                            ),
                        ))
                }
            }),
    {
        if self.contains(p) {
            return false;
        }
        let pile = &col.state.piles[p];
        let normal = pile.supply && pile.kingdom;
        if normal && self.current_normal_pile_count >= self.required_cards {
            return false;
        }
        self.piles.push(p);
        if normal {
            self.current_normal_pile_count = self.current_normal_pile_count + 1;
        }
        // fold the pile's supply costs into the cost set
        let ncards = pile.cards.len();
        let mut ci: usize = 0;
        let ghost costs_pre = self.costs_in_supply@;
        let ghost snap = *self;
        while ci < ncards
            invariant
                0 <= ci <= ncards,
                ncards == pile.cards@.len(),
                pile == &col.state.piles@[p as int],
                self.piles == snap.piles,
                self.required_cards == snap.required_cards,
                self.current_normal_pile_count == snap.current_normal_pile_count,
                self.notes == snap.notes,
                self.need_items == snap.need_items,
                self.tags == snap.tags,
                self.target_check_required == snap.target_check_required,
                self.target_blame == snap.target_blame,
                self.targets == snap.targets,
                self.interacts_keywords == snap.interacts_keywords,
                self.keywords == snap.keywords,
                self.begin_general == snap.begin_general,
                self.initial_cards == snap.initial_cards,
                costs_upto(self.costs_in_supply@, costs_pre, pile.cards@, ci as int),
            decreases ncards - ci,
        {
            let c = &pile.cards[ci];
            let ghost mid = self.costs_in_supply@;
            if c.supply {
                self.costs_in_supply.insert(c.cost);
            }
            proof {
                if pile.cards@[ci as int].supply {
                    crate::piles::lemma_costset_insert_contains(
                        mid,
                        self.costs_in_supply@,
                        pile.cards@[ci as int].cost,
                    );
                }
                lemma_cost_step(costs_pre, mid, self.costs_in_supply@, pile.cards@, ci as int);
            }
            ci += 1;
        }
        // pending cost targets
        if pile.targets.len() > 0 {
            let name = pile.name.clone();
            self.set_need_to_check(true, name.as_str());
            let tn = pile.targets.len();
            let mut ti: usize = 0;
            let ghost targets_pre = self.targets@;
            let ghost snap2 = *self;
            while ti < tn
                invariant
                    0 <= ti <= tn,
                    tn == pile.targets@.len(),
                    pile == &col.state.piles@[p as int],
                    self.piles == snap2.piles,
                    self.required_cards == snap2.required_cards,
                    self.current_normal_pile_count == snap2.current_normal_pile_count,
                    self.notes == snap2.notes,
                    self.need_items == snap2.need_items,
                    self.tags == snap2.tags,
                    self.target_check_required == snap2.target_check_required,
                    self.target_blame == snap2.target_blame,
                    self.costs_in_supply == snap2.costs_in_supply,
                    self.interacts_keywords == snap2.interacts_keywords,
                    self.keywords == snap2.keywords,
                    self.begin_general == snap2.begin_general,
                    self.initial_cards == snap2.initial_cards,
                    reps_upto(self.targets@, targets_pre, pile.targets@, ti as int),
                decreases tn - ti,
            {
                let t = &pile.targets[ti];
                let mut found = false;
                let vn = self.targets.len();
                let mut vi: usize = 0;
                while vi < vn
                    invariant
                        0 <= vi <= vn,
                        vn == self.targets@.len(),
                        0 <= ti < tn,
                        tn == pile.targets@.len(),
                        pile == &col.state.piles@[p as int],
                        t == &pile.targets@[ti as int],
                        found ==> rep_present(
                            self.targets@,
                            spec_shape_rep(pile.targets@[ti as int]@),
                        ),
                    decreases vn - vi,
                {
                    if str_eq(self.targets[vi].str_rep().as_str(), t.str_rep().as_str()) {
                        found = true;
                        proof {
                            assert(spec_shape_rep(self.targets@[vi as int]@) == spec_shape_rep(t@));
                        }
                        break ;
                    }
                    vi += 1;
                }
                let ghost mid = self.targets@;
                if !found {
                    self.targets.push(t.clone());
                    proof {
                        assert(self.targets@.subrange(0, mid.len() as int) =~= mid);
                    }
                }
                proof {
                    lemma_rep_step(targets_pre, mid, self.targets@, pile.targets@, ti as int, found);
                }
                ti += 1;
            }
        }
        // keyword tallies
        let kn = pile.keywords.len();
        let mut ki: usize = 0;
        let ghost kw_pre = self.keywords@;
        let ghost snap3 = *self;
        while ki < kn
            invariant
                0 <= ki <= kn,
                kn == pile.keywords@.len(),
                pile == &col.state.piles@[p as int],
                self.piles == snap3.piles,
                self.required_cards == snap3.required_cards,
                self.current_normal_pile_count == snap3.current_normal_pile_count,
                self.notes == snap3.notes,
                self.need_items == snap3.need_items,
                self.tags == snap3.tags,
                self.target_check_required == snap3.target_check_required,
                self.target_blame == snap3.target_blame,
                self.costs_in_supply == snap3.costs_in_supply,
                self.interacts_keywords == snap3.interacts_keywords,
                self.targets == snap3.targets,
                self.begin_general == snap3.begin_general,
                self.initial_cards == snap3.initial_cards,
                keys_upto(self.keywords@, kw_pre, pile.keywords@, ki as int),
                forall|t: Seq<char>|
                    #[trigger] key_count(self.keywords@, t) == spec_tick_n(
                        key_count(kw_pre, t),
                        seq_str_count(pile.keywords@.subrange(0, ki as int), t),
                    ),
            decreases kn - ki,
        {
            let ghost mid = self.keywords@;
            assoc_increment(&mut self.keywords, pile.keywords[ki].as_str());
            proof {
                lemma_key_step(kw_pre, mid, self.keywords@, pile.keywords@, ki as int);
                let gki = ki as int;
                assert forall|t: Seq<char>|
                    #[trigger] key_count(self.keywords@, t) == spec_tick_n(
                        key_count(kw_pre, t),
                        seq_str_count(pile.keywords@.subrange(0, gki + 1), t),
                    ) by {
                    assert(pile.keywords@.subrange(0, gki + 1).drop_last()
                        =~= pile.keywords@.subrange(0, gki));
                    assert(pile.keywords@.subrange(0, gki + 1).last() == pile.keywords@[gki]);
                    lemma_seq_str_count_nonneg(pile.keywords@.subrange(0, gki), t);
                    if t == pile.keywords@[gki]@ {
                        assert(key_count(self.keywords@, t) == spec_tick(key_count(mid, t)));
                    } else {
                        assert(key_count(self.keywords@, t) == key_count(mid, t));
                    }
                }
            }
            ki += 1;
        }
        proof {
            lemma_keys_finish(kw_pre, self.keywords@, pile.keywords@);
            assert(pile.keywords@.subrange(0, kn as int) =~= pile.keywords@);
        }
        // keyword interactions, direct and via react(...) strings
        let ghost ik_pre = self.interacts_keywords@;
        let ikn = pile.kw_interactions.len();
        let mut iki: usize = 0;
        let ghost snap4 = *self;
        while iki < ikn
            invariant
                0 <= iki <= ikn,
                ikn == pile.kw_interactions@.len(),
                pile == &col.state.piles@[p as int],
                self.piles == snap4.piles,
                self.required_cards == snap4.required_cards,
                self.current_normal_pile_count == snap4.current_normal_pile_count,
                self.notes == snap4.notes,
                self.need_items == snap4.need_items,
                self.tags == snap4.tags,
                self.target_check_required == snap4.target_check_required,
                self.target_blame == snap4.target_blame,
                self.costs_in_supply == snap4.costs_in_supply,
                self.keywords == snap4.keywords,
                self.targets == snap4.targets,
                self.begin_general == snap4.begin_general,
                self.initial_cards == snap4.initial_cards,
                keys_upto(self.interacts_keywords@, ik_pre, pile.kw_interactions@, iki as int),
                forall|t: Seq<char>|
                    #[trigger] key_count(self.interacts_keywords@, t) == spec_tick_n(
                        key_count(ik_pre, t),
                        seq_str_count(pile.kw_interactions@.subrange(0, iki as int), t),
                    ),
            decreases ikn - iki,
        {
            let ghost mid = self.interacts_keywords@;
            assoc_increment(&mut self.interacts_keywords, pile.kw_interactions[iki].as_str());
            proof {
                lemma_key_step(
                    ik_pre,
                    mid,
                    self.interacts_keywords@,
                    pile.kw_interactions@,
                    iki as int,
                );
                let gki = iki as int;
                assert forall|t: Seq<char>|
                    #[trigger] key_count(self.interacts_keywords@, t) == spec_tick_n(
                        key_count(ik_pre, t),
                        seq_str_count(pile.kw_interactions@.subrange(0, gki + 1), t),
                    ) by {
                    assert(pile.kw_interactions@.subrange(0, gki + 1).drop_last()
                        =~= pile.kw_interactions@.subrange(0, gki));
                    assert(pile.kw_interactions@.subrange(0, gki + 1).last()
                        == pile.kw_interactions@[gki]);
                    lemma_seq_str_count_nonneg(pile.kw_interactions@.subrange(0, gki), t);
                    if t == pile.kw_interactions@[gki]@ {
                        assert(key_count(self.interacts_keywords@, t) == spec_tick(
                            key_count(mid, t),
                        ));
                    } else {
                        assert(key_count(self.interacts_keywords@, t) == key_count(mid, t));
                    }
                }
            }
            iki += 1;
        }
        proof {
            assert(pile.kw_interactions@.subrange(0, ikn as int) =~= pile.kw_interactions@);
        }
        let ghost ik_mid = self.interacts_keywords@;
        let on = pile.other_interactions.len();
        let mut oi: usize = 0;
        let ghost snap5 = *self;
        while oi < on
            invariant
                0 <= oi <= on,
                on == pile.other_interactions@.len(),
                col.state.piles@[p as int].wf(),
                p < col.state.piles@.len(),
                pile == &col.state.piles@[p as int],
                self.piles == snap5.piles,
                self.required_cards == snap5.required_cards,
                self.current_normal_pile_count == snap5.current_normal_pile_count,
                self.notes == snap5.notes,
                self.need_items == snap5.need_items,
                self.tags == snap5.tags,
                self.target_check_required == snap5.target_check_required,
                self.target_blame == snap5.target_blame,
                self.costs_in_supply == snap5.costs_in_supply,
                self.keywords == snap5.keywords,
                self.targets == snap5.targets,
                self.begin_general == snap5.begin_general,
                self.initial_cards == snap5.initial_cards,
                reacts_upto(self.interacts_keywords@, ik_mid, pile.other_interactions@, oi as int),
                forall|t: Seq<char>|
                    #[trigger] key_count(self.interacts_keywords@, t) == spec_tick_n(
                        key_count(ik_mid, t),
                        seq_react_count(pile.other_interactions@.subrange(0, oi as int), t),
                    ),
            decreases on - oi,
        {
            let s = &pile.other_interactions[oi];
            let ghost mid = self.interacts_keywords@;
            if starts_with(s.as_str(), "react(") {
                let slen = s.as_str().unicode_len();
                proof {
                    reveal_strlit("react(");
                    assert(s@.subrange(0, 6) == "react("@);
                    assert(s@[5] == s@.subrange(0, 6)[5]);
                    assert(s@.contains('(')) by {
                        assert(s@[5] == '(');
                    }
                    assert(crate::cards::spec_paren_ok(s@));
                    assert(s@.len() > 0 && s@.last() == ')');
                    if slen == 6 {
                        assert(s@[5] == ')');
                    }
                    assert(slen >= 7);
                }
                let inner = s.as_str().substring_char(6, slen - 1);
                assoc_increment(&mut self.interacts_keywords, inner);
                proof {
                    assert(s@ =~= spec_react_string(inner@)) by {
                        assert(s@.subrange(0, 6) == "react("@);
                        assert(inner@ == s@.subrange(6, s@.len() - 1));
                        assert(s@.last() == ')');
                    }
                    lemma_react_step_add(
                        ik_mid,
                        mid,
                        self.interacts_keywords@,
                        pile.other_interactions@,
                        oi as int,
                        inner@,
                    );
                    let goi = oi as int;
                    assert forall|t: Seq<char>|
                        #[trigger] key_count(self.interacts_keywords@, t) == spec_tick_n(
                            key_count(ik_mid, t),
                            seq_react_count(
                                pile.other_interactions@.subrange(0, goi + 1),
                                t,
                            ),
                        ) by {
                        assert(pile.other_interactions@.subrange(0, goi + 1).drop_last()
                            =~= pile.other_interactions@.subrange(0, goi));
                        assert(pile.other_interactions@.subrange(0, goi + 1).last()
                            == pile.other_interactions@[goi]);
                        lemma_seq_react_count_nonneg(
                            pile.other_interactions@.subrange(0, goi),
                            t,
                        );
                        if t == inner@ {
                            assert(s@ == spec_react_string(t));
                            assert(key_count(self.interacts_keywords@, t) == spec_tick(
                                key_count(mid, t),
                            ));
                        } else {
                            assert(s@ != spec_react_string(t)) by {
                                reveal_strlit("react(");
                                if s@ == spec_react_string(t) {
                                    assert(t =~= spec_react_string(t).subrange(
                                        6,
                                        spec_react_string(t).len() - 1,
                                    ));
                                    assert(inner@ == s@.subrange(6, s@.len() - 1));
                                }
                            }
                            assert(key_count(self.interacts_keywords@, t) == key_count(mid, t));
                        }
                    }
                }
            } else {
                proof {
                    lemma_react_step_skip(
                        ik_mid,
                        self.interacts_keywords@,
                        pile.other_interactions@,
                        oi as int,
                    );
                    let goi = oi as int;
                    assert forall|t: Seq<char>|
                        #[trigger] key_count(self.interacts_keywords@, t) == spec_tick_n(
                            key_count(ik_mid, t),
                            seq_react_count(
                                pile.other_interactions@.subrange(0, goi + 1),
                                t,
                            ),
                        ) by {
                        assert(pile.other_interactions@.subrange(0, goi + 1).drop_last()
                            =~= pile.other_interactions@.subrange(0, goi));
                        assert(pile.other_interactions@.subrange(0, goi + 1).last()
                            == pile.other_interactions@[goi]);
                        lemma_seq_react_count_nonneg(
                            pile.other_interactions@.subrange(0, goi),
                            t,
                        );
                        assert(s@ != spec_react_string(t)) by {
                            reveal_strlit("react(");
                            if s@ == spec_react_string(t) {
                                assert(crate::strutil::spec_starts_with(s@, "react("@)) by {
                                    assert(s@.subrange(0, 6) =~= "react("@);
                                }
                            }
                        }
                    }
                }
            }
            oi += 1;
        }
        proof {
            lemma_interact_finish(
                ik_pre,
                ik_mid,
                self.interacts_keywords@,
                pile.kw_interactions@,
                pile.other_interactions@,
            );
            lemma_cost_finish(costs_pre, self.costs_in_supply@, col.state.piles@[p as int]);
            assert(pile.other_interactions@.subrange(0, on as int) =~= pile.other_interactions@);
            assert forall|t: Seq<char>|
                #[trigger] key_count(self.interacts_keywords@, t) == spec_tick_n(
                    key_count(ik_pre, t),
                    seq_str_count(pile.kw_interactions@, t) + seq_react_count(
                        pile.other_interactions@,
                        t,
                    ),
                ) by {
                lemma_seq_str_count_nonneg(pile.kw_interactions@, t);
                lemma_seq_react_count_nonneg(pile.other_interactions@, t);
                lemma_tick_n_add(
                    key_count(ik_pre, t),
                    seq_str_count(pile.kw_interactions@, t),
                    seq_react_count(pile.other_interactions@, t),
                );
            }
        }
        true
    }

    /// Record why a pile is in the draft.
    pub fn tag_pile(&mut self, p: usize, tag: &str)
        ensures
            tag_added(final(self).tags@, old(self).tags@, p, tag@),
            *final(self) == (SelectionState { tags: final(self).tags, ..*old(self) }),
    {
        let n = self.tags.len();
        let mut i: usize = 0;
        while i < n
            invariant
                0 <= i <= n,
                n == self.tags@.len(),
                *self == *old(self),
                forall|j: int| 0 <= j < i ==> self.tags@[j].0 != p,
            decreases n - i,
        {
            if self.tags[i].0 == p {
                let ghost pre = self.tags@;
                let mut entry = self.tags.remove(i);
                let ghost oldvec = entry.1@;
                crate::piles::insert_str(&mut entry.1, tag);
                let ghost ge = entry;
                self.tags.insert(i, entry);
                proof {
                    assert(self.tags@ =~= pre.update(i as int, ge));
                    assert(ge.0 == p);
                    assert(oldvec == pre[i as int].1@);
                    assert forall|q: usize, u: Seq<char>|
                        has_tag(self.tags@, q, u) <==> (has_tag(pre, q, u) || (q == p && u
                            == tag@)) by {
                        assert(has_str(ge.1@, u) <==> (has_str(oldvec, u) || u == tag@));
                        if has_tag(pre, q, u) {
                            let j = choose|j: int|
                                0 <= j < pre.len() && pre[j].0 == q && has_str(pre[j].1@, u);
                            assert(self.tags@[j].0 == q);
                            if j != i {
                                assert(has_str(self.tags@[j].1@, u));
                            } else {
                                assert(has_str(self.tags@[i as int].1@, u));
                            }
                            assert(has_tag(self.tags@, q, u));
                        }
                        if q == p && u == tag@ {
                            assert(self.tags@[i as int].0 == p && has_str(
                                self.tags@[i as int].1@,
                                tag@,
                            ));
                            assert(has_tag(self.tags@, q, u));
                        }
                        if has_tag(self.tags@, q, u) {
                            let j = choose|j: int|
                                0 <= j < self.tags@.len() && self.tags@[j].0 == q && has_str(
                                    self.tags@[j].1@,
                                    u,
                                );
                            if j != i {
                                assert(pre[j].0 == q && has_str(pre[j].1@, u));
                                assert(has_tag(pre, q, u));
                            } else {
                                assert(has_str(oldvec, u) || u == tag@);
                                if has_str(oldvec, u) {
                                    assert(pre[i as int].0 == q && has_str(pre[i as int].1@, u));
                                    assert(has_tag(pre, q, u));
                                }
                            }
                        }
                    }
                    assert(tag_added(self.tags@, pre, p, tag@));
                }
                return ;
            }
            i += 1;
        }
        let ghost pre = self.tags@;
        let mut fresh: Vec<String> = Vec::new();
        fresh.push(tag.to_owned());
        self.tags.push((p, fresh));
        proof {
            assert forall|q: usize, u: Seq<char>|
                has_tag(self.tags@, q, u) <==> (has_tag(pre, q, u) || (q == p && u == tag@)) by {
                if has_tag(pre, q, u) {
                    let j = choose|j: int|
                        0 <= j < pre.len() && pre[j].0 == q && has_str(pre[j].1@, u);
                    assert(self.tags@[j].0 == q && has_str(self.tags@[j].1@, u));
                }
                if q == p && u == tag@ {
                    assert(self.tags@[pre.len() as int].0 == p);
                    assert(self.tags@[pre.len() as int].1@[0]@ == tag@);
                    assert(has_str(self.tags@[pre.len() as int].1@, tag@));
                }
                if has_tag(self.tags@, q, u) {
                    let j = choose|j: int|
                        0 <= j < self.tags@.len() && self.tags@[j].0 == q && has_str(
                            self.tags@[j].1@,
                            u,
                        );
                    if j < pre.len() {
                        assert(has_tag(pre, q, u));
                    } else {
                        assert(self.tags@[j].1@[0]@ == tag@);
                        let k = choose|k: int|
                            0 <= k < self.tags@[j].1@.len() && self.tags@[j].1@[k]@ == u;
                        assert(k == 0);
                    }
                }
            }
            assert(tag_added(self.tags@, pre, p, tag@));
        }
    }

    /// Record that a fix has been applied.
    pub fn add_note(&mut self, s: &str)
        ensures
            forall|t: Seq<char>|
                final(self).spec_has_note(t) <==> (old(self).spec_has_note(t) || t == s@),
            *final(self) == (SelectionState { notes: final(self).notes, ..*old(self) }),
    {
        crate::piles::insert_str(&mut self.notes, s);
    }

    /// Record a physical token the finished kingdom will need.
    pub fn add_item(&mut self, s: &str)
        ensures
            forall|t: Seq<char>|
                has_str(final(self).need_items@, t) <==> (has_str(old(self).need_items@, t) || t
                    == s@),
            *final(self) == (SelectionState { need_items: final(self).need_items, ..*old(self) }),
    {
        crate::piles::insert_str(&mut self.need_items, s);
    }

    /// Raise or clear the pending-target flag; on a rising edge the blame
    /// string restarts, otherwise the pile name is appended.
    pub fn set_need_to_check(&mut self, v: bool, s: &str)
        ensures
            final(self).target_check_required == v,
            *final(self) == (SelectionState {
                target_check_required: v,
                target_blame: final(self).target_blame,
                ..*old(self)
            }),
            v && (!old(self).target_check_required || old(self).target_blame@.len() == 0)
                ==> final(self).target_blame@ == s@,
            v && old(self).target_check_required && old(self).target_blame@.len() > 0
                ==> final(self).target_blame@ == old(self).target_blame@ + ","@ + s@,
            !v ==> final(self).target_blame == old(self).target_blame,
    {
        if v {
            if !self.target_check_required || self.target_blame.as_str().unicode_len() == 0 {
                self.target_blame = s.to_owned();
            } else {
                let mut b = self.target_blame.clone();
                b = b.concat(",");
                b = b.concat(s);
                self.target_blame = b;
            }
        }
        self.target_check_required = v;
    }

    pub fn get_target_string(&self) -> (r: String)
        ensures
            r@ == self.target_blame@,
    {
        self.target_blame.clone()
    }
}


fn clone_vec_usize(v: &Vec<usize>) -> (r: Vec<usize>)
    ensures
        r@ == v@,
{
    let mut r: Vec<usize> = Vec::new();
    let n = v.len();
    let mut i: usize = 0;
    while i < n
        invariant
            0 <= i <= n,
            n == v@.len(),
            r@ == v@.subrange(0, i as int),
        decreases n - i,
    {
        r.push(v[i]);
        proof {
            assert(r@ =~= v@.subrange(0, i + 1));
        }
        i += 1;
    }
    proof {
        assert(r@ =~= v@);
    }
    r
}

fn clone_vec_string(v: &Vec<String>) -> (r: Vec<String>)
    ensures
        r@ == v@,
{
    let mut r: Vec<String> = Vec::new();
    let n = v.len();
    let mut i: usize = 0;
    while i < n
        invariant
            0 <= i <= n,
            n == v@.len(),
            r@ == v@.subrange(0, i as int),
        decreases n - i,
    {
        r.push(v[i].clone());
        proof {
            assert(r@ =~= v@.subrange(0, i + 1));
        }
        i += 1;
    }
    proof {
        assert(r@ =~= v@);
    }
    r
}

fn clone_assoc(v: &Vec<(String, u64)>) -> (r: Vec<(String, u64)>)
    ensures
        r@ == v@,
{
    let mut r: Vec<(String, u64)> = Vec::new();
    let n = v.len();
    let mut i: usize = 0;
    while i < n
        invariant
            0 <= i <= n,
            n == v@.len(),
            r@ == v@.subrange(0, i as int),
        decreases n - i,
    {
        let s = v[i].0.clone();
        let c = v[i].1;
        r.push((s, c));
        proof {
            assert((s, c) == v@[i as int]);
            assert(r@ =~= v@.subrange(0, i + 1));
        }
        i += 1;
    }
    proof {
        assert(r@ =~= v@);
    }
    r
}

fn clone_tags(v: &Vec<(usize, Vec<String>)>) -> (r: Vec<(usize, Vec<String>)>)
    ensures
        r@.len() == v@.len(),
        forall|i: int|
            0 <= i < v@.len() ==> (#[trigger] r@[i]).0 == v@[i].0 && r@[i].1@ == v@[i].1@,
        forall|q: usize, t: Seq<char>| has_tag(r@, q, t) <==> has_tag(v@, q, t),
{
    let mut r: Vec<(usize, Vec<String>)> = Vec::new();
    let n = v.len();
    let mut i: usize = 0;
    while i < n
        invariant
            0 <= i <= n,
            n == v@.len(),
            r@.len() == i,
            forall|j: int|
                0 <= j < i ==> (#[trigger] r@[j]).0 == v@[j].0 && r@[j].1@ == v@[j].1@,
        decreases n - i,
    {
        let key = v[i].0;
        let vs = clone_vec_string(&v[i].1);
        r.push((key, vs));
        i += 1;
    }
    proof {
        assert forall|q: usize, t: Seq<char>| has_tag(r@, q, t) <==> has_tag(v@, q, t) by {
            if has_tag(r@, q, t) {
                let j = choose|j: int| 0 <= j < r@.len() && r@[j].0 == q && has_str(r@[j].1@, t);
                assert(v@[j].0 == q && has_str(v@[j].1@, t));
            }
            if has_tag(v@, q, t) {
                let j = choose|j: int| 0 <= j < v@.len() && v@[j].0 == q && has_str(v@[j].1@, t);
                assert(r@[j].0 == q && has_str(r@[j].1@, t));
            }
        }
    }
    r
}

fn clone_targets(v: &Vec<CostTarget>) -> (r: Vec<CostTarget>)
    ensures
        r@.len() == v@.len(),
        forall|i: int| 0 <= i < v@.len() ==> (#[trigger] r@[i])@ == v@[i]@,
{
    let mut r: Vec<CostTarget> = Vec::new();
    let n = v.len();
    let mut i: usize = 0;
    while i < n
        invariant
            0 <= i <= n,
            n == v@.len(),
            r@.len() == i,
            forall|j: int| 0 <= j < i ==> (#[trigger] r@[j])@ == v@[j]@,
        decreases n - i,
    {
        r.push(v[i].clone());
        i += 1;
    }
    r
}

impl SelectionState {
    /// A fresh, empty draft over the catalog.
    pub fn new2(col: &CardColl, general_begin: CollectionIterator, market_cap: u8) -> (r:
        SelectionState)
        ensures
            r.wf(*col),
            r.piles@ == Seq::<usize>::empty(),
            r.required_cards == market_cap,
            r.current_normal_pile_count == 0,
            r.notes@ == Seq::<String>::empty(),
            r.need_items@ == Seq::<String>::empty(),
            r.tags@ == Seq::<(usize, Vec<String>)>::empty(),
            r.costs_in_supply@ == Seq::<Cost>::empty(),
            !r.target_check_required,
            r.targets@ == Seq::<CostTarget>::empty(),
            r.interacts_keywords@ == Seq::<(String, u64)>::empty(),
            r.keywords@ == Seq::<(String, u64)>::empty(),
            r.begin_general == general_begin,
            r.initial_cards@ == market_cap,
    {
        let r = SelectionState {
            piles: Vec::new(),
            required_cards: market_cap,
            current_normal_pile_count: 0,
            notes: Vec::new(),
            need_items: Vec::new(),
            tags: Vec::new(),
            costs_in_supply: CostSet::new(),
            target_check_required: false,
            target_blame: String::new(),
            targets: Vec::new(),
            interacts_keywords: Vec::new(),
            keywords: Vec::new(),
            begin_general: general_begin,
            initial_cards: Ghost(market_cap),
        };
        proof {
            assert(r.wf(*col)) by {
                assert(!r.spec_has_note("hasBane"@));
                assert(forall|p: usize| !#[trigger] has_tag(r.tags@, p, "Bane"@));
            }
        }
        r
    }

    pub fn new1(coll: &CardColl, general_begin: CollectionIterator, market_cap: u8) -> (r:
        SelectionState)
        ensures
            r.wf(*coll),
            r.piles@ == Seq::<usize>::empty(),
            r.required_cards == market_cap,
            r.current_normal_pile_count == 0,
            r.notes@ == Seq::<String>::empty(),
            r.need_items@ == Seq::<String>::empty(),
            r.tags@ == Seq::<(usize, Vec<String>)>::empty(),
            r.costs_in_supply@ == Seq::<Cost>::empty(),
            !r.target_check_required,
            r.targets@ == Seq::<CostTarget>::empty(),
            r.interacts_keywords@ == Seq::<(String, u64)>::empty(),
            r.keywords@ == Seq::<(String, u64)>::empty(),
            r.begin_general == general_begin,
            r.initial_cards@ == market_cap,
    {
        SelectionState::new2(coll, general_begin, market_cap)
    }

    pub fn new(coll: &CardColl, general_begin: CollectionIterator) -> (r: SelectionState)
        ensures
            r.wf(*coll),
            r.piles@ == Seq::<usize>::empty(),
            r.required_cards == 10,
            r.current_normal_pile_count == 0,
            r.notes@ == Seq::<String>::empty(),
            r.need_items@ == Seq::<String>::empty(),
            r.tags@ == Seq::<(usize, Vec<String>)>::empty(),
            r.costs_in_supply@ == Seq::<Cost>::empty(),
            !r.target_check_required,
            r.targets@ == Seq::<CostTarget>::empty(),
            r.interacts_keywords@ == Seq::<(String, u64)>::empty(),
            r.keywords@ == Seq::<(String, u64)>::empty(),
            r.begin_general == general_begin,
            r.initial_cards@ == 10,
    {
        SelectionState::new1(coll, general_begin, 10)
    }
}

/// A finished or parent draft, no longer mutated in place; branches of
/// the search duplicate it before extending it.
pub struct SelectionPtr {
    pub state: SelectionState,
}

impl SelectionPtr {
    pub fn from_state(s: SelectionState) -> (r: SelectionPtr)
        ensures
            r.state == s,
    {
        SelectionPtr { state: s }
    }

    /// An equivalent draft that can be mutated without touching this one.
    pub fn duplicate_state(&self) -> (r: SelectionState)
        ensures
            r.piles@ == self.state.piles@,
            r.required_cards == self.state.required_cards,
            r.current_normal_pile_count == self.state.current_normal_pile_count,
            r.notes@ == self.state.notes@,
            r.need_items@ == self.state.need_items@,
            forall|q: usize, t: Seq<char>|
                has_tag(r.tags@, q, t) <==> has_tag(self.state.tags@, q, t),
            r.costs_in_supply@ == self.state.costs_in_supply@,
            r.target_check_required == self.state.target_check_required,
            r.target_blame@ == self.state.target_blame@,
            r.targets@.len() == self.state.targets@.len(),
            forall|i: int|
                0 <= i < self.state.targets@.len() ==> (#[trigger] r.targets@[i])@
                    == self.state.targets@[i]@,
            r.interacts_keywords@ == self.state.interacts_keywords@,
            r.keywords@ == self.state.keywords@,
            r.begin_general.list@ == self.state.begin_general.list@,
            r.begin_general.index == self.state.begin_general.index,
            r.initial_cards == self.state.initial_cards,
            forall|col: CardColl| self.state.wf(col) ==> r.wf(col),
    {
        let s = &self.state;
        let r = SelectionState {
            piles: clone_vec_usize(&s.piles),
            required_cards: s.required_cards,
            current_normal_pile_count: s.current_normal_pile_count,
            notes: clone_vec_string(&s.notes),
            need_items: clone_vec_string(&s.need_items),
            tags: clone_tags(&s.tags),
            costs_in_supply: s.costs_in_supply.clone(),
            target_check_required: s.target_check_required,
            target_blame: s.target_blame.clone(),
            targets: clone_targets(&s.targets),
            interacts_keywords: clone_assoc(&s.interacts_keywords),
            keywords: clone_assoc(&s.keywords),
            begin_general: s.begin_general.clone(),
            initial_cards: s.initial_cards,
        };
        proof {
            assert forall|col: CardColl| self.state.wf(col) implies r.wf(col) by {
                assert(r.wf_groups(col)) by {
                    assert forall|k: int|
                        0 <= k < col.state.piles@.len() && !(#[trigger] col.state.piles@[k]).spec_is_normal()
                            && r.spec_has_note("added"@ + col.state.piles@[k].card_group@) implies r.piles@.contains(
                        k as usize,
                    ) by {
                        assert(self.state.spec_has_note("added"@ + col.state.piles@[k].card_group@));
                    }
                }
                assert(r.wf_bane(col)) by {
                    if self.state.spec_has_note("hasBane"@) {
                        let p = choose|p: usize|
                            {
                                &&& #[trigger] has_tag(self.state.tags@, p, "Bane"@)
                                &&& self.state.piles@.contains(p)
                                &&& p < col.state.piles@.len()
                                &&& SelectionState::spec_bane_pile(col.state.piles@[p as int])
                            };
                        assert(has_tag(r.tags@, p, "Bane"@));
                        assert forall|a: usize, b: usize|
                            has_tag(r.tags@, a, "Bane"@) && has_tag(r.tags@, b, "Bane"@) implies a
                            == b by {
                            assert(has_tag(self.state.tags@, a, "Bane"@));
                            assert(has_tag(self.state.tags@, b, "Bane"@));
                        }
                    } else {
                        assert forall|p: usize| !#[trigger] has_tag(r.tags@, p, "Bane"@) by {
                            if has_tag(r.tags@, p, "Bane"@) {
                                assert(has_tag(self.state.tags@, p, "Bane"@));
                            }
                        }
                    }
                }
            }
        }
        r
    }

    pub fn get_normal_pile_count(&self) -> (r: u8)
        ensures
            r == self.state.current_normal_pile_count,
    {
        self.state.current_normal_pile_count
    }

    pub fn get_required_count(&self) -> (r: u8)
        ensures
            r == self.state.required_cards,
    {
        self.state.required_cards
    }

    pub fn contains(&self, p: usize) -> (r: bool)
        ensures
            r == self.state.piles@.contains(p),
    {
        self.state.contains(p)
    }

    pub fn get_piles(&self) -> (r: &Vec<usize>)
        ensures
            r == &self.state.piles,
    {
        &self.state.piles
    }

    pub fn has_note(&self, s: &str) -> (r: bool)
        ensures
            r == self.state.spec_has_note(s@),
    {
        crate::cards::contains_str(&self.state.notes, s)
    }

    pub fn get_cost_set(&self) -> (r: &CostSet)
        ensures
            r == &self.state.costs_in_supply,
    {
        &self.state.costs_in_supply
    }

    pub fn need_to_check_costtargets(&self) -> (r: bool)
        ensures
            r == self.state.target_check_required,
    {
        self.state.target_check_required
    }

    pub fn get_target_set(&self) -> (r: &Vec<CostTarget>)
        ensures
            r == &self.state.targets,
    {
        &self.state.targets
    }

    pub fn get_interacts_keywords(&self) -> (r: &Vec<(String, u64)>)
        ensures
            r == &self.state.interacts_keywords,
    {
        &self.state.interacts_keywords
    }

    pub fn get_keywords(&self) -> (r: &Vec<(String, u64)>)
        ensures
            r == &self.state.keywords,
    {
        &self.state.keywords
    }
}

/// A react string always starts with its prefix.
proof fn lemma_react_starts(t: Seq<char>)
    ensures
        spec_starts_with(spec_react_string(t), "react("@),
{
    assert(spec_react_string(t).subrange(0, "react("@.len() as int) =~= "react("@);
}

/// Two react strings agree only on equal keywords.
proof fn lemma_react_inj(t: Seq<char>, u: Seq<char>)
    requires
        spec_react_string(t) == spec_react_string(u),
    ensures
        t == u,
{
    assert(spec_react_string(t).len() == "react("@.len() + t.len() + 1);
    assert(t =~= spec_react_string(t).subrange(
        "react("@.len() as int,
        spec_react_string(t).len() - 1,
    ));
    assert(u =~= spec_react_string(u).subrange(
        "react("@.len() as int,
        spec_react_string(u).len() - 1,
    ));
}

proof fn lemma_cost_step(
    pre: Seq<Cost>,
    mid: Seq<Cost>,
    post: Seq<Cost>,
    cards: Seq<crate::cards::Card>,
    ci: int,
)
    requires
        0 <= ci < cards.len(),
        cards[ci].supply ==> forall|x: Cost|
            post.contains(x) <==> (mid.contains(x) || x == cards[ci].cost),
        !cards[ci].supply ==> post == mid,
        costs_upto(mid, pre, cards, ci),
    ensures
        costs_upto(post, pre, cards, ci + 1),
{
    assert(forall|x: Cost|
        mid.contains(x) <==> (pre.contains(x) || exists|j: int|
            0 <= j < ci && (#[trigger] cards[j]).supply && cards[j].cost == x));

    assert forall|x: Cost|
        post.contains(x) <==> (pre.contains(x) || exists|j: int|
            0 <= j < ci + 1 && (#[trigger] cards[j]).supply && cards[j].cost == x) by {
        if post.contains(x) {
            if mid.contains(x) {
                if !pre.contains(x) {
                    let j = choose|j: int|
                        0 <= j < ci && (#[trigger] cards[j]).supply && cards[j].cost == x;
                    assert(0 <= j < ci + 1 && cards[j].supply && cards[j].cost == x);
                }
            } else {
                assert(cards[ci].supply && x == cards[ci].cost);
            }
        }
        if pre.contains(x) {
            assert(mid.contains(x));
            assert(post.contains(x));
        }
        if exists|j: int| 0 <= j < ci + 1 && (#[trigger] cards[j]).supply && cards[j].cost == x {
            let j = choose|j: int|
                0 <= j < ci + 1 && (#[trigger] cards[j]).supply && cards[j].cost == x;
            if j < ci {
                assert(mid.contains(x));
                assert(post.contains(x));
            } else {
                assert(cards[ci].supply);
                assert(post.contains(x));
            }
        }
    }
}

proof fn lemma_key_step(
    pre: Seq<(String, u64)>,
    mid: Seq<(String, u64)>,
    post: Seq<(String, u64)>,
    words: Seq<String>,
    ki: int,
)
    requires
        0 <= ki < words.len(),
        key_added(post, mid, words[ki]@),
        keys_upto(mid, pre, words, ki),
    ensures
        keys_upto(post, pre, words, ki + 1),
{
    assert(forall|t: Seq<char>|
        key_present(mid, t) <==> (key_present(pre, t) || exists|j: int|
            0 <= j < ki && (#[trigger] words[j])@ == t));

    assert forall|t: Seq<char>|
        key_present(post, t) <==> (key_present(pre, t) || exists|j: int|
            0 <= j < ki + 1 && (#[trigger] words[j])@ == t) by {
        assert(key_present(post, t) <==> (key_present(mid, t) || t == words[ki]@));
        if key_present(post, t) {
            if key_present(mid, t) {
                if !key_present(pre, t) {
                    let j = choose|j: int| 0 <= j < ki && (#[trigger] words[j])@ == t;
                    assert(0 <= j < ki + 1 && words[j]@ == t);
                }
            } else {
                assert(words[ki]@ == t);
            }
        }
        if key_present(pre, t) {
            assert(key_present(mid, t));
        }
        if exists|j: int| 0 <= j < ki + 1 && (#[trigger] words[j])@ == t {
            let j = choose|j: int| 0 <= j < ki + 1 && (#[trigger] words[j])@ == t;
            if j < ki {
                assert(key_present(mid, t));
            } else {
                assert(t == words[ki]@);
            }
        }
    }
}

pub proof fn lemma_rep_step(
    pre: Seq<CostTarget>,
    mid: Seq<CostTarget>,
    post: Seq<CostTarget>,
    src: Seq<CostTarget>,
    ti: int,
    found: bool,
)
    requires
        0 <= ti < src.len(),
        found ==> post == mid && rep_present(mid, spec_shape_rep(src[ti]@)),
        !found ==> post.len() == mid.len() + 1 && post.subrange(0, mid.len() as int) == mid
            && spec_shape_rep(post.last()@) == spec_shape_rep(src[ti]@),
        reps_upto(mid, pre, src, ti),
    ensures
        reps_upto(post, pre, src, ti + 1),
{
    assert(forall|rep: Seq<char>|
        rep_present(mid, rep) <==> (rep_present(pre, rep) || exists|j: int|
            0 <= j < ti && spec_shape_rep(#[trigger] src[j]@) == rep));

    assert forall|rep: Seq<char>|
        rep_present(post, rep) <==> (rep_present(pre, rep) || exists|j: int|
            0 <= j < ti + 1 && spec_shape_rep(#[trigger] src[j]@) == rep) by {
        if rep_present(post, rep) {
            let k = choose|k: int| 0 <= k < post.len() && spec_shape_rep(post[k]@) == rep;
            if found {
                assert(rep_present(mid, rep));
            } else {
                if k < mid.len() {
                    assert(post.subrange(0, mid.len() as int)[k] == post[k]);
                    assert(mid[k] == post[k]);
                    assert(rep_present(mid, rep));
                } else {
                    assert(spec_shape_rep(src[ti]@) == rep);
                }
            }
        }
        if rep_present(pre, rep) || (exists|j: int|
            0 <= j < ti + 1 && spec_shape_rep(#[trigger] src[j]@) == rep) {
            let has_mid: bool = if rep_present(pre, rep) {
                true
            } else {
                let j = choose|j: int|
                    0 <= j < ti + 1 && spec_shape_rep(#[trigger] src[j]@) == rep;
                j < ti
            };
            if has_mid {
                assert(rep_present(mid, rep));
                let k = choose|k: int| 0 <= k < mid.len() && spec_shape_rep(mid[k]@) == rep;
                if found {
                    assert(rep_present(post, rep));
                } else {
                    assert(post.subrange(0, mid.len() as int)[k] == post[k]);
                    assert(spec_shape_rep(post[k]@) == rep);
                }
            } else {
                let j = choose|j: int|
                    0 <= j < ti + 1 && spec_shape_rep(#[trigger] src[j]@) == rep;
                assert(j == ti);
                if found {
                    assert(rep_present(mid, rep));
                    let k = choose|k: int| 0 <= k < mid.len() && spec_shape_rep(mid[k]@) == rep;
                    assert(rep_present(post, rep));
                } else {
                    assert(spec_shape_rep(post.last()@) == rep);
                }
            }
        }
    }
}


proof fn lemma_keys_finish(pre: Seq<(String, u64)>, post: Seq<(String, u64)>, words: Seq<String>)
    requires
        keys_upto(post, pre, words, words.len() as int),
    ensures
        forall|t: Seq<char>|
            key_present(post, t) <==> (key_present(pre, t) || has_str(words, t)),
{
    assert forall|t: Seq<char>|
        key_present(post, t) <==> (key_present(pre, t) || has_str(words, t)) by {
        assert(key_present(post, t) <==> (key_present(pre, t) || exists|j: int|
            0 <= j < words.len() && (#[trigger] words[j])@ == t));
        if has_str(words, t) {
            let j = choose|j: int| 0 <= j < words.len() && words[j]@ == t;
            assert((words[j])@ == t);
        }
        if exists|j: int| 0 <= j < words.len() && (#[trigger] words[j])@ == t {
            let j = choose|j: int| 0 <= j < words.len() && (#[trigger] words[j])@ == t;
            assert(has_str(words, t));
        }
    }
}

proof fn lemma_react_step_add(
    base: Seq<(String, u64)>,
    mid: Seq<(String, u64)>,
    post: Seq<(String, u64)>,
    inters: Seq<String>,
    oi: int,
    inner: Seq<char>,
)
    requires
        0 <= oi < inters.len(),
        inters[oi]@ == spec_react_string(inner),
        key_added(post, mid, inner),
        reacts_upto(mid, base, inters, oi),
    ensures
        reacts_upto(post, base, inters, oi + 1),
{
    assert(forall|t: Seq<char>|
        key_present(mid, t) <==> (key_present(base, t) || exists|j: int|
            0 <= j < oi && (#[trigger] inters[j])@ == spec_react_string(t)));

    assert forall|t: Seq<char>|
        key_present(post, t) <==> (key_present(base, t) || exists|j: int|
            0 <= j < oi + 1 && (#[trigger] inters[j])@ == spec_react_string(t)) by {
        assert(key_present(post, t) <==> (key_present(mid, t) || t == inner));
        if key_present(post, t) {
            if key_present(mid, t) {
                if !key_present(base, t) {
                    let j = choose|j: int|
                        0 <= j < oi && (#[trigger] inters[j])@ == spec_react_string(t);
                    assert(0 <= j < oi + 1 && inters[j]@ == spec_react_string(t));
                }
            } else {
                assert(t == inner);
                assert(inters[oi]@ == spec_react_string(t));
            }
        }
        if key_present(base, t) {
            assert(key_present(mid, t));
        }
        if exists|j: int| 0 <= j < oi + 1 && (#[trigger] inters[j])@ == spec_react_string(t) {
            let j = choose|j: int|
                0 <= j < oi + 1 && (#[trigger] inters[j])@ == spec_react_string(t);
            if j < oi {
                assert(key_present(mid, t));
            } else {
                lemma_react_inj(t, inner);
            }
        }
    }
}

proof fn lemma_react_step_skip(
    base: Seq<(String, u64)>,
    cur: Seq<(String, u64)>,
    inters: Seq<String>,
    oi: int,
)
    requires
        0 <= oi < inters.len(),
        !spec_starts_with(inters[oi]@, "react("@),
        reacts_upto(cur, base, inters, oi),
    ensures
        reacts_upto(cur, base, inters, oi + 1),
{
    assert(forall|t: Seq<char>|
        key_present(cur, t) <==> (key_present(base, t) || exists|j: int|
            0 <= j < oi && (#[trigger] inters[j])@ == spec_react_string(t)));

    assert forall|t: Seq<char>|
        key_present(cur, t) <==> (key_present(base, t) || exists|j: int|
            0 <= j < oi + 1 && (#[trigger] inters[j])@ == spec_react_string(t)) by {
        assert(key_present(cur, t) <==> (key_present(base, t) || exists|j: int|
            0 <= j < oi && (#[trigger] inters[j])@ == spec_react_string(t)));
        if exists|j: int| 0 <= j < oi + 1 && (#[trigger] inters[j])@ == spec_react_string(t) {
            let j = choose|j: int|
                0 <= j < oi + 1 && (#[trigger] inters[j])@ == spec_react_string(t);
            if j == oi {
                lemma_react_starts(t);
            }
        }
    }
}

proof fn lemma_interact_finish(
    pre: Seq<(String, u64)>,
    mid: Seq<(String, u64)>,
    post: Seq<(String, u64)>,
    kws: Seq<String>,
    inters: Seq<String>,
)
    requires
        keys_upto(mid, pre, kws, kws.len() as int),
        reacts_upto(post, mid, inters, inters.len() as int),
    ensures
        forall|t: Seq<char>|
            key_present(post, t) <==> (key_present(pre, t) || has_str(kws, t) || has_str(
                inters,
                spec_react_string(t),
            )),
{
    assert forall|t: Seq<char>|
        key_present(post, t) <==> (key_present(pre, t) || has_str(kws, t) || has_str(
            inters,
            spec_react_string(t),
        )) by {
        assert(key_present(post, t) <==> (key_present(mid, t) || exists|j: int|
            0 <= j < inters.len() && (#[trigger] inters[j])@ == spec_react_string(t)));
        assert(key_present(mid, t) <==> (key_present(pre, t) || exists|j: int|
            0 <= j < kws.len() && (#[trigger] kws[j])@ == t));
        if has_str(kws, t) {
            let j = choose|j: int| 0 <= j < kws.len() && kws[j]@ == t;
            assert((kws[j])@ == t);
        }
        if exists|j: int| 0 <= j < kws.len() && (#[trigger] kws[j])@ == t {
            let j = choose|j: int| 0 <= j < kws.len() && (#[trigger] kws[j])@ == t;
            assert(has_str(kws, t));
        }
        if has_str(inters, spec_react_string(t)) {
            let j = choose|j: int| 0 <= j < inters.len() && inters[j]@ == spec_react_string(t);
            assert((inters[j])@ == spec_react_string(t));
        }
        if exists|j: int| 0 <= j < inters.len() && (#[trigger] inters[j])@ == spec_react_string(t) {
            let j = choose|j: int|
                0 <= j < inters.len() && (#[trigger] inters[j])@ == spec_react_string(t);
            assert(has_str(inters, spec_react_string(t)));
        }
    }
}

proof fn lemma_cost_finish(pre: Seq<Cost>, post: Seq<Cost>, pile: Pile)
    requires
        costs_upto(post, pre, pile.cards@, pile.cards@.len() as int),
    ensures
        cost_union(post, pre, pile),
{
    assert forall|x: Cost|
        post.contains(x) <==> (pre.contains(x) || spec_pile_adds_cost(pile, x)) by {
        assert(post.contains(x) <==> (pre.contains(x) || exists|j: int|
            0 <= j < pile.cards@.len() && (#[trigger] pile.cards@[j]).supply
                && pile.cards@[j].cost == x));
    }
}


/// The notes of `post` are exactly those of `pre` plus `t`.
pub open spec fn note_added(post: SelectionState, pre: SelectionState, t: Seq<char>) -> bool {
    forall|u: Seq<char>| post.spec_has_note(u) <==> (pre.spec_has_note(u) || u == t)
}

/// A short word on reserved tags: `Bane` marks the one pile adjoined for
/// Young Witch, so ordinary explanations must not use it.
pub proof fn lemma_not_bane(t: Seq<char>)
    requires
        t.len() > 0,
        t[0] != 'B',
    ensures
        t != "Bane"@,
{
    reveal_strlit("Bane");
    if t == "Bane"@ {
        assert(t[0] == 'B');
    }
}

/// Pushing onto a sequence keeps every old element in it.
pub proof fn lemma_push_keeps_contains(s: Seq<usize>, x: usize, e: usize)
    ensures
        s.contains(e) ==> s.push(x).contains(e),
        s.push(x).contains(e) ==> (s.contains(e) || e == x),
{
    if s.contains(e) {
        let i = choose|i: int| 0 <= i < s.len() && s[i] == e;
        assert(s.push(x)[i] == e);
    }
    if s.push(x).contains(e) {
        let i = choose|i: int| 0 <= i < s.push(x).len() && s.push(x)[i] == e;
        if i < s.len() {
            assert(s[i] == e);
        }
    }
}

pub proof fn lemma_normal_count_push(piles: Seq<usize>, col: Seq<Pile>, p: usize)
    ensures
        spec_normal_count(piles.push(p), col) == spec_normal_count(piles, col) + (if p < col.len()
            && col[p as int].spec_is_normal() {
            1int
        } else {
            0int
        }),
{
    assert(piles.push(p).drop_last() =~= piles);
}

/// Adding one pile to a well-formed draft keeps it well formed, provided
/// the books balance the way `add_pile` leaves them.
pub proof fn lemma_add_pile_wf(pre: SelectionState, post: SelectionState, col: CardColl, p: usize)
    requires
        pre.wf(col),
        p < col.state.piles@.len(),
        !pre.piles@.contains(p),
        post.piles@ == pre.piles@.push(p),
        post.current_normal_pile_count as int == pre.current_normal_pile_count as int + (if col.state.piles@[p as int].spec_is_normal() {
            1int
        } else {
            0int
        }),
        post.current_normal_pile_count <= post.required_cards,
        post.required_cards == pre.required_cards,
        post.notes@ == pre.notes@,
        forall|q: usize, u: Seq<char>| has_tag(post.tags@, q, u) <==> has_tag(pre.tags@, q, u),
        post.initial_cards == pre.initial_cards,
        cost_union(post.costs_in_supply@, pre.costs_in_supply@, col.state.piles@[p as int]),
        keys_union_kw(post.keywords@, pre.keywords@, col.state.piles@[p as int]),
        keys_union_interact(
            post.interacts_keywords@,
            pre.interacts_keywords@,
            col.state.piles@[p as int],
        ),
    ensures
        post.wf(col),
{
    lemma_add_pile_core(pre, post, col, p);
    assert(post.wf_bane(col)) by {
        if post.spec_has_note("hasBane"@) {
            assert(pre.spec_has_note("hasBane"@));
            let q = choose|q: usize|
                {
                    &&& #[trigger] has_tag(pre.tags@, q, "Bane"@)
                    &&& pre.piles@.contains(q)
                    &&& q < col.state.piles@.len()
                    &&& SelectionState::spec_bane_pile(col.state.piles@[q as int])
                };
            assert(has_tag(post.tags@, q, "Bane"@));
            lemma_push_keeps_contains(pre.piles@, p, q);
            assert forall|a: usize, b: usize|
                has_tag(post.tags@, a, "Bane"@) && has_tag(post.tags@, b, "Bane"@) implies a
                == b by {
                assert(has_tag(pre.tags@, a, "Bane"@) && has_tag(pre.tags@, b, "Bane"@));
            }
        } else {
            assert(!pre.spec_has_note("hasBane"@));
            assert forall|q: usize| !#[trigger] has_tag(post.tags@, q, "Bane"@) by {
                if has_tag(post.tags@, q, "Bane"@) {
                    assert(has_tag(pre.tags@, q, "Bane"@));
                }
            }
        }
    }}

/// The same, for the invariants that ignore the bane bookkeeping; the
/// card cap may move here.
pub proof fn lemma_add_pile_core(pre: SelectionState, post: SelectionState, col: CardColl, p: usize)
    requires
        pre.wf_core(col),
        p < col.state.piles@.len(),
        !pre.piles@.contains(p),
        post.piles@ == pre.piles@.push(p),
        post.current_normal_pile_count as int == pre.current_normal_pile_count as int + (if col.state.piles@[p as int].spec_is_normal() {
            1int
        } else {
            0int
        }),
        post.current_normal_pile_count <= post.required_cards,
        post.notes@ == pre.notes@,
        cost_union(post.costs_in_supply@, pre.costs_in_supply@, col.state.piles@[p as int]),
        keys_union_kw(post.keywords@, pre.keywords@, col.state.piles@[p as int]),
        keys_union_interact(
            post.interacts_keywords@,
            pre.interacts_keywords@,
            col.state.piles@[p as int],
        ),
    ensures
        post.wf_core(col),
{
    let pile = col.state.piles@[p as int];
    assert forall|i: int| 0 <= i < post.piles@.len() implies #[trigger] post.piles@[i]
        < col.state.piles@.len() by {
        if i < pre.piles@.len() {
            assert(pre.piles@[i] < col.state.piles@.len());
        }
    }
    assert forall|i: int, j: int| 0 <= i < j < post.piles@.len() implies post.piles@[i]
        != post.piles@[j] by {
        if j < pre.piles@.len() {
        } else {
            assert(post.piles@[j] == p);
            assert(pre.piles@[i] == post.piles@[i]);
            if post.piles@[i] == p {
                assert(pre.piles@.contains(p));
            }
        }
    }
    lemma_normal_count_push(pre.piles@, col.state.piles@, p);
    assert forall|x: Cost|
        post.costs_in_supply@.contains(x) <==> exists|i: int|
            0 <= i < post.piles@.len() && spec_pile_adds_cost(
                col.state.piles@[#[trigger] post.piles@[i] as int],
                x,
            ) by {
        if post.costs_in_supply@.contains(x) {
            if pre.costs_in_supply@.contains(x) {
                let i = choose|i: int|
                    0 <= i < pre.piles@.len() && spec_pile_adds_cost(
                        col.state.piles@[#[trigger] pre.piles@[i] as int],
                        x,
                    );
                assert(post.piles@[i] == pre.piles@[i]);
                assert(spec_pile_adds_cost(col.state.piles@[post.piles@[i] as int], x));
            } else {
                assert(spec_pile_adds_cost(pile, x));
                assert(post.piles@[pre.piles@.len() as int] == p);
            }
        }
        if exists|i: int|
            0 <= i < post.piles@.len() && spec_pile_adds_cost(
                col.state.piles@[#[trigger] post.piles@[i] as int],
                x,
            ) {
            let i = choose|i: int|
                0 <= i < post.piles@.len() && spec_pile_adds_cost(
                    col.state.piles@[#[trigger] post.piles@[i] as int],
                    x,
                );
            if i < pre.piles@.len() {
                assert(pre.piles@[i] == post.piles@[i]);
                assert(pre.costs_in_supply@.contains(x));
            } else {
                assert(post.piles@[i] == p);
            }
        }
    }
    assert forall|t: Seq<char>|
        key_present(post.keywords@, t) <==> exists|i: int|
            0 <= i < post.piles@.len()
                && col.state.piles@[#[trigger] post.piles@[i] as int].spec_has_keyword(t) by {
        if key_present(post.keywords@, t) {
            if key_present(pre.keywords@, t) {
                let i = choose|i: int|
                    0 <= i < pre.piles@.len()
                        && col.state.piles@[#[trigger] pre.piles@[i] as int].spec_has_keyword(t);
                assert(post.piles@[i] == pre.piles@[i]);
                assert(col.state.piles@[post.piles@[i] as int].spec_has_keyword(t));
            } else {
                assert(pile.spec_has_keyword(t));
                assert(post.piles@[pre.piles@.len() as int] == p);
            }
        }
        if exists|i: int|
            0 <= i < post.piles@.len()
                && col.state.piles@[#[trigger] post.piles@[i] as int].spec_has_keyword(t) {
            let i = choose|i: int|
                0 <= i < post.piles@.len()
                    && col.state.piles@[#[trigger] post.piles@[i] as int].spec_has_keyword(t);
            if i < pre.piles@.len() {
                assert(pre.piles@[i] == post.piles@[i]);
                assert(key_present(pre.keywords@, t));
            } else {
                assert(post.piles@[i] == p);
            }
        }
    }
    assert forall|t: Seq<char>|
        key_present(post.interacts_keywords@, t) <==> exists|i: int|
            0 <= i < post.piles@.len() && (col.state.piles@[#[trigger] post.piles@[i] as int].spec_has_kw_interaction(
                t,
            ) || col.state.piles@[post.piles@[i] as int].spec_has_other_interaction(
                spec_react_string(t),
            )) by {
        if key_present(post.interacts_keywords@, t) {
            if key_present(pre.interacts_keywords@, t) {
                let i = choose|i: int|
                    0 <= i < pre.piles@.len() && (col.state.piles@[#[trigger] pre.piles@[i] as int].spec_has_kw_interaction(
                        t,
                    ) || col.state.piles@[pre.piles@[i] as int].spec_has_other_interaction(
                        spec_react_string(t),
                    ));
                assert(post.piles@[i] == pre.piles@[i]);
                assert(col.state.piles@[post.piles@[i] as int].spec_has_kw_interaction(t)
                    || col.state.piles@[post.piles@[i] as int].spec_has_other_interaction(
                    spec_react_string(t),
                ));
            } else {
                assert(post.piles@[pre.piles@.len() as int] == p);
            }
        }
        if exists|i: int|
            0 <= i < post.piles@.len() && (col.state.piles@[#[trigger] post.piles@[i] as int].spec_has_kw_interaction(
                t,
            ) || col.state.piles@[post.piles@[i] as int].spec_has_other_interaction(
                spec_react_string(t),
            )) {
            let i = choose|i: int|
                0 <= i < post.piles@.len() && (col.state.piles@[#[trigger] post.piles@[i] as int].spec_has_kw_interaction(
                    t,
                ) || col.state.piles@[post.piles@[i] as int].spec_has_other_interaction(
                    spec_react_string(t),
                ));
            if i < pre.piles@.len() {
                assert(pre.piles@[i] == post.piles@[i]);
                assert(key_present(pre.interacts_keywords@, t));
            } else {
                assert(post.piles@[i] == p);
            }
        }
    }
    assert(post.wf_groups(col)) by {
        assert forall|k: int|
            0 <= k < col.state.piles@.len() && !(#[trigger] col.state.piles@[k]).spec_is_normal()
                && post.spec_has_note("added"@ + col.state.piles@[k].card_group@) implies post.piles@.contains(
            k as usize,
        ) by {
            assert(pre.spec_has_note("added"@ + col.state.piles@[k].card_group@));
            assert(pre.piles@.contains(k as usize));
            lemma_push_keeps_contains(pre.piles@, p, k as usize);
        }
    }
}

/// Tagging a pile with anything
/// Tagging a pile with anything but the reserved `Bane` word keeps a
/// well-formed draft well formed.
pub proof fn lemma_tag_wf(pre: SelectionState, post: SelectionState, col: CardColl, p: usize, tag: Seq<char>)
    requires
        pre.wf(col),
        tag != "Bane"@,
        tag_added(post.tags@, pre.tags@, p, tag),
        post.piles@ == pre.piles@,
        post.required_cards == pre.required_cards,
        post.current_normal_pile_count == pre.current_normal_pile_count,
        post.notes@ == pre.notes@,
        post.costs_in_supply@ == pre.costs_in_supply@,
        post.keywords@ == pre.keywords@,
        post.interacts_keywords@ == pre.interacts_keywords@,
        post.initial_cards == pre.initial_cards,
    ensures
        post.wf(col),
{
    assert forall|q: usize, u: Seq<char>|
        has_tag(post.tags@, q, u) <==> (has_tag(pre.tags@, q, u) || (q == p && u == tag)) by {}
    assert(post.wf_bane(col)) by {
        if post.spec_has_note("hasBane"@) {
            let q = choose|q: usize|
                {
                    &&& #[trigger] has_tag(pre.tags@, q, "Bane"@)
                    &&& pre.piles@.contains(q)
                    &&& q < col.state.piles@.len()
                    &&& SelectionState::spec_bane_pile(col.state.piles@[q as int])
                };
            assert(has_tag(post.tags@, q, "Bane"@));
            assert forall|a: usize, b: usize|
                has_tag(post.tags@, a, "Bane"@) && has_tag(post.tags@, b, "Bane"@) implies a
                == b by {
                assert(has_tag(pre.tags@, a, "Bane"@) && has_tag(pre.tags@, b, "Bane"@));
            }
        } else {
            assert forall|q: usize| !#[trigger] has_tag(post.tags@, q, "Bane"@) by {
                if has_tag(post.tags@, q, "Bane"@) {
                    assert(has_tag(pre.tags@, q, "Bane"@) || tag == "Bane"@);
                }
            }
        }
    }
}

/// Recording a note keeps a well-formed draft well formed, provided the
/// note is not the bane marker and any group it proclaims complete is
/// complete indeed.
pub proof fn lemma_note_wf(pre: SelectionState, post: SelectionState, col: CardColl, t: Seq<char>)
    requires
        pre.wf(col),
        t != "hasBane"@,
        note_added(post, pre, t),
        forall|k: int|
            0 <= k < col.state.piles@.len() && !(#[trigger] col.state.piles@[k]).spec_is_normal()
                && t == "added"@ + col.state.piles@[k].card_group@ ==> post.piles@.contains(
                k as usize,
            ),
        post.piles@ == pre.piles@,
        post.required_cards == pre.required_cards,
        post.current_normal_pile_count == pre.current_normal_pile_count,
        post.tags@ == pre.tags@,
        post.costs_in_supply@ == pre.costs_in_supply@,
        post.keywords@ == pre.keywords@,
        post.interacts_keywords@ == pre.interacts_keywords@,
        post.initial_cards == pre.initial_cards,
    ensures
        post.wf(col),
{
    assert(post.wf_groups(col)) by {
        assert forall|k: int|
            0 <= k < col.state.piles@.len() && !(#[trigger] col.state.piles@[k]).spec_is_normal()
                && post.spec_has_note("added"@ + col.state.piles@[k].card_group@) implies post.piles@.contains(
            k as usize,
        ) by {
            if pre.spec_has_note("added"@ + col.state.piles@[k].card_group@) {
                assert(pre.piles@.contains(k as usize));
            }
        }
    }
    assert(post.wf_bane(col)) by {
        assert(post.spec_has_note("hasBane"@) == pre.spec_has_note("hasBane"@));
        if post.spec_has_note("hasBane"@) {
            let q = choose|q: usize|
                {
                    &&& #[trigger] has_tag(pre.tags@, q, "Bane"@)
                    &&& pre.piles@.contains(q)
                    &&& q < col.state.piles@.len()
                    &&& SelectionState::spec_bane_pile(col.state.piles@[q as int])
                };
            assert(has_tag(post.tags@, q, "Bane"@));
        }
    }
}

/// The full bane fix: the cap rises by one, the bane pile arrives, two
/// tags and the `hasBane` note are set, and the draft is again well
/// formed.
pub proof fn lemma_bane_wf(
    pre: SelectionState,
    post: SelectionState,
    col: CardColl,
    p: usize,
    why: Seq<char>,
)
    requires
        pre.wf(col),
        !pre.spec_has_note("hasBane"@),
        p < col.state.piles@.len(),
        !pre.piles@.contains(p),
        SelectionState::spec_bane_pile(col.state.piles@[p as int]),
        why != "Bane"@,
        post.piles@ == pre.piles@.push(p),
        post.required_cards as int == pre.required_cards as int + 1,
        post.current_normal_pile_count as int == pre.current_normal_pile_count as int + 1,
        post.current_normal_pile_count <= post.required_cards,
        note_added(post, pre, "hasBane"@),
        forall|q: usize, u: Seq<char>|
            has_tag(post.tags@, q, u) <==> (has_tag(pre.tags@, q, u) || (q == p && u == "Bane"@)
                || (q == p && u == why)),
        post.initial_cards == pre.initial_cards,
        cost_union(post.costs_in_supply@, pre.costs_in_supply@, col.state.piles@[p as int]),
        keys_union_kw(post.keywords@, pre.keywords@, col.state.piles@[p as int]),
        keys_union_interact(
            post.interacts_keywords@,
            pre.interacts_keywords@,
            col.state.piles@[p as int],
        ),
    ensures
        post.wf(col),
{
    let mid = SelectionState {
        piles: post.piles,
        required_cards: post.required_cards,
        current_normal_pile_count: post.current_normal_pile_count,
        notes: pre.notes,
        need_items: pre.need_items,
        tags: pre.tags,
        costs_in_supply: post.costs_in_supply,
        target_check_required: pre.target_check_required,
        target_blame: pre.target_blame,
        targets: pre.targets,
        interacts_keywords: post.interacts_keywords,
        keywords: post.keywords,
        begin_general: pre.begin_general,
        initial_cards: pre.initial_cards,
    };
    assert(col.state.piles@[p as int].spec_is_normal());
    lemma_add_pile_core(pre, mid, col, p);
    // from the mid state, the count cap, the note, the tags and the raised
    // cap are reconciled directly
    assert(post.wf(col)) by {
        assert(mid.wf_core(col));
        assert(forall|i: int|
            0 <= i < post.piles@.len() ==> #[trigger] post.piles@[i] < col.state.piles@.len());
        assert(forall|i: int, j: int|
            0 <= i < j < post.piles@.len() ==> post.piles@[i] != post.piles@[j]);
        assert(post.current_normal_pile_count as int == spec_normal_count(
            post.piles@,
            col.state.piles@,
        ));
        assert forall|x: Cost|
            post.costs_in_supply@.contains(x) <==> exists|i: int|
                0 <= i < post.piles@.len() && spec_pile_adds_cost(
                    col.state.piles@[#[trigger] post.piles@[i] as int],
                    x,
                ) by {}
        assert forall|t: Seq<char>|
            key_present(post.keywords@, t) <==> exists|i: int|
                0 <= i < post.piles@.len()
                    && col.state.piles@[#[trigger] post.piles@[i] as int].spec_has_keyword(t) by {}
        assert forall|t: Seq<char>|
            key_present(post.interacts_keywords@, t) <==> exists|i: int|
                0 <= i < post.piles@.len() && (col.state.piles@[#[trigger] post.piles@[i] as int].spec_has_kw_interaction(
                    t,
                ) || col.state.piles@[post.piles@[i] as int].spec_has_other_interaction(
                    spec_react_string(t),
                )) by {
            assert(key_present(mid.interacts_keywords@, t) <==> exists|i: int|
                0 <= i < mid.piles@.len() && (col.state.piles@[#[trigger] mid.piles@[i] as int].spec_has_kw_interaction(
                    t,
                ) || col.state.piles@[mid.piles@[i] as int].spec_has_other_interaction(
                    spec_react_string(t),
                )));
        }
        assert(post.wf_groups(col)) by {
            assert forall|k: int|
                0 <= k < col.state.piles@.len() && !(#[trigger] col.state.piles@[k]).spec_is_normal()
                    && post.spec_has_note("added"@ + col.state.piles@[k].card_group@) implies post.piles@.contains(
                k as usize,
            ) by {
                assert(("added"@ + col.state.piles@[k].card_group@) != "hasBane"@) by {
                    reveal_strlit("added");
                    reveal_strlit("hasBane");
                    assert(("added"@ + col.state.piles@[k].card_group@)[0] == 'a');
                    assert("hasBane"@[0] == 'h');
                }
                assert(pre.spec_has_note("added"@ + col.state.piles@[k].card_group@));
                assert(pre.piles@.contains(k as usize));
                lemma_push_keeps_contains(pre.piles@, p, k as usize);
            }
        }
        assert(post.wf_bane(col)) by {
            assert(post.spec_has_note("hasBane"@));
            assert(has_tag(post.tags@, p, "Bane"@));
            assert(post.piles@.contains(p)) by {
                assert(post.piles@[pre.piles@.len() as int] == p);
            }
            assert(post.required_cards as int == post.initial_cards@ as int + 1) by {
                assert(pre.required_cards == pre.initial_cards@);
            }
            assert forall|a: usize, b: usize|
                has_tag(post.tags@, a, "Bane"@) && has_tag(post.tags@, b, "Bane"@) implies a
                == b by {
                assert(!has_tag(pre.tags@, a, "Bane"@) && !has_tag(pre.tags@, b, "Bane"@));
            }
        }
    }
}

pub proof fn lemma_normal_count_bound(piles: Seq<usize>, col: Seq<Pile>)
    ensures
        0 <= spec_normal_count(piles, col) <= piles.len(),
    decreases piles.len(),
{
    if piles.len() > 0 {
        lemma_normal_count_bound(piles.drop_last(), col);
    }
}


/// A draft stays well formed when only its target flag, blame string,
/// general cursor or item list move.
pub proof fn lemma_same_fields_wf(pre: SelectionState, post: SelectionState, col: CardColl)
    requires
        pre.wf(col),
        post.piles == pre.piles,
        post.required_cards == pre.required_cards,
        post.current_normal_pile_count == pre.current_normal_pile_count,
        post.notes == pre.notes,
        post.tags == pre.tags,
        post.costs_in_supply == pre.costs_in_supply,
        post.keywords == pre.keywords,
        post.interacts_keywords == pre.interacts_keywords,
        post.initial_cards == pre.initial_cards,
    ensures
        post.wf(col),
{
    assert(post.wf_groups(col)) by {
        assert forall|k: int|
            0 <= k < col.state.piles@.len() && !(#[trigger] col.state.piles@[k]).spec_is_normal()
                && post.spec_has_note("added"@ + col.state.piles@[k].card_group@) implies post.piles@.contains(
            k as usize,
        ) by {
            assert(pre.spec_has_note("added"@ + col.state.piles@[k].card_group@));
        }
    }
    assert(post.wf_bane(col)) by {
        if post.spec_has_note("hasBane"@) {
            let q = choose|q: usize|
                {
                    &&& #[trigger] has_tag(pre.tags@, q, "Bane"@)
                    &&& pre.piles@.contains(q)
                    &&& q < col.state.piles@.len()
                    &&& SelectionState::spec_bane_pile(col.state.piles@[q as int])
                };
            assert(has_tag(post.tags@, q, "Bane"@));
        }
    }
}

} // verus!
