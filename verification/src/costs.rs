//! The cost model: a card's price, sets of costs, weighted cost votes,
//! and cost targets decoded from `cost...` interaction strings.

use vstd::prelude::*;

use crate::strutil::{i8_to_string, push_char, spec_int_string, starts_with, str_eq};

verus! {

/// A card's price: optional coin, potion and debt components.
#[derive(PartialEq, Eq, Structural, Clone, Copy, Debug)]
pub struct Cost {
    pub coin: Option<i8>,
    pub potion: Option<i8>,
    pub debt: Option<i8>,
}

impl Cost {
    /// A coin-only cost.
    pub fn new_s(coin: i8) -> (c: Cost)
        ensures
            c == (Cost { coin: Some(coin), potion: None, debt: None }),
    {
        Cost { coin: Some(coin), potion: None, debt: None }
    }

    pub fn new(coin: Option<i8>, potion: Option<i8>, debt: Option<i8>) -> (c: Cost)
        ensures
            c == (Cost { coin, potion, debt }),
    {
        Cost { coin, potion, debt }
    }

    pub fn has_debt(&self) -> (r: bool)
        ensures
            r == self.debt is Some,
    {
        self.debt.is_some()
    }

    pub fn has_coin(&self) -> (r: bool)
        ensures
            r == self.coin is Some,
    {
        self.coin.is_some()
    }

    pub fn has_potion(&self) -> (r: bool)
        ensures
            r == self.potion is Some,
    {
        self.potion.is_some()
    }

    pub fn is_coin_only(&self) -> (r: bool)
        ensures
            r == (self.potion is None && self.debt is None),
    {
        self.potion.is_none() && self.debt.is_none()
    }

    pub fn get_coin(&self) -> (r: Option<i8>)
        ensures
            r == self.coin,
    {
        self.coin
    }

    /// The cost reached from `self` by moving the coin component by `delta`,
    /// clamped into `0..=127`; a missing coin component counts as `-1`.
    pub open spec fn spec_rel_cost(self, delta: int) -> Cost {
        let base = match self.coin {
            Some(c) => c as int,
            None => -1,
        };
        let moved = base + delta;
        let clamped = if moved < 0 {
            0
        } else if moved > 127 {
            127
        } else {
            moved
        };
        Cost { coin: Some(clamped as i8), potion: self.potion, debt: self.debt }
    }

    pub fn get_rel_cost(&self, delta: i8) -> (c: Cost)
        ensures
            c == self.spec_rel_cost(delta as int),
    {
        let base: i16 = match self.coin {
            Some(c) => c as i16,
            None => -1i16,
        };
        let moved: i16 = base + delta as i16;
        let clamped: i16 = if moved < 0 {
            0
        } else if moved > 127 {
            127
        } else {
            moved
        };
        Cost { coin: Some(clamped as i8), potion: self.potion, debt: self.debt }
    }

    /// `"(coin,potionD,debtD)"`, each component empty when absent.
    pub open spec fn spec_string(self) -> Seq<char> {
        let coin_part = match self.coin {
            Some(c) => spec_int_string(c as int),
            None => Seq::<char>::empty(),
        };
        let potion_part = match self.potion {
            Some(p) => spec_int_string(p as int).push('D'),
            None => Seq::<char>::empty(),
        };
        let debt_part = match self.debt {
            Some(d) => spec_int_string(d as int).push('D'),
            None => Seq::<char>::empty(),
        };
        seq!['('] + coin_part + seq![','] + potion_part + seq![','] + debt_part + seq![')']
    }

    pub fn get_string(&self) -> (r: String)
        ensures
            r@ == self.spec_string(),
    {
        let mut r = String::new();
        push_char(&mut r, '(');
        if let Some(c) = self.coin {
            let digits = i8_to_string(c);
            r = r.concat(digits.as_str());
        }
        push_char(&mut r, ',');
        if let Some(p) = self.potion {
            let digits = i8_to_string(p);
            r = r.concat(digits.as_str());
            push_char(&mut r, 'D');
        }
        push_char(&mut r, ',');
        if let Some(d) = self.debt {
            let digits = i8_to_string(d);
            r = r.concat(digits.as_str());
            push_char(&mut r, 'D');
        }
        push_char(&mut r, ')');
        proof {
            assert(r@ =~= self.spec_string());
        }
        r
    }

    /// Whether two cost sets share an element.
    pub fn intersects(cs1: &CostSet, cs2: &CostSet) -> (r: bool)
        ensures
            r == exists|c: Cost| cs1@.contains(c) && cs2@.contains(c),
    {
        let n = cs1.len();
        let mut i: usize = 0;
        while i < n
            invariant
                0 <= i <= n,
                n == cs1@.len(),
                forall|j: int| 0 <= j < i ==> !cs2@.contains(#[trigger] cs1@[j]),
            decreases n - i,
        {
            if cs2.contains(&cs1.index(i)) {
                return true;
            }
            i += 1;
        }
        false
    }
}

/// A set of distinct costs, iterated in insertion order.
pub struct CostSet {
    items: Vec<Cost>,
}

impl View for CostSet {
    type V = Seq<Cost>;

    closed spec fn view(&self) -> Seq<Cost> {
        self.items@
    }
}

impl Clone for CostSet {
    fn clone(&self) -> (r: Self)
        ensures
            r@ == self@,
    {
        CostSet { items: self.items.clone() }
    }
}

impl CostSet {
    pub fn new() -> (r: CostSet)
        ensures
            r@ == Seq::<Cost>::empty(),
    {
        CostSet { items: Vec::new() }
    }

    pub fn len(&self) -> (n: usize)
        ensures
            n == self@.len(),
    {
        self.items.len()
    }

    pub fn is_empty(&self) -> (r: bool)
        ensures
            r == (self@.len() == 0),
    {
        self.items.len() == 0
    }

    pub fn index(&self, i: usize) -> (c: Cost)
        requires
            i < self@.len(),
        ensures
            c == self@[i as int],
    {
        self.items[i]
    }

    pub fn contains(&self, c: &Cost) -> (r: bool)
        ensures
            r == self@.contains(*c),
    {
        let n = self.items.len();
        let mut i: usize = 0;
        while i < n
            invariant
                0 <= i <= n,
                n == self@.len(),
                forall|j: int| 0 <= j < i ==> self@[j] != *c,
            decreases n - i,
        {
            if self.items[i] == *c {
                assert(self@[i as int] == *c);
                return true;
            }
            i += 1;
        }
        false
    }

    /// Add `c` unless it is already present.
    pub fn insert(&mut self, c: Cost)
        ensures
            old(self)@.contains(c) ==> final(self)@ == old(self)@,
            !old(self)@.contains(c) ==> final(self)@ == old(self)@.push(c),
    {
        if !self.contains(&c) {
            self.items.push(c);
        }
    }
}

/// What a cost target is made of, for specification purposes: the three
/// weighting parameters, the canonical string, and the kind's own data.
pub enum TargetShape {
    Relative {
        matches_required: int,
        unmet_weight: int,
        met_weight: int,
        rep: Seq<char>,
        delta: int,
        strict: bool,
    },
    UpTo { matches_required: int, unmet_weight: int, met_weight: int, rep: Seq<char>, limit: int },
    InSet {
        matches_required: int,
        unmet_weight: int,
        met_weight: int,
        rep: Seq<char>,
        costs: Seq<Cost>,
    },
}

pub open spec fn spec_bool_string(b: bool) -> Seq<char> {
    if b {
        "true"@
    } else {
        "false"@
    }
}

/// Canonical string of a relative target.
pub open spec fn spec_rep_relative(strict: bool, delta: int) -> Seq<char> {
    "CR"@ + spec_bool_string(strict) + spec_int_string(delta)
}

/// Canonical string of an up-to target.
pub open spec fn spec_rep_upto(limit: int) -> Seq<char> {
    "UT"@ + spec_int_string(limit)
}

pub open spec fn spec_cost_strings(cs: Seq<Cost>) -> Seq<Seq<char>> {
    cs.map_values(|c: Cost| c.spec_string())
}

/// Canonical string of an in-set target: the member costs' strings in
/// lexicographic order, so that equal sets give equal strings.
pub open spec fn spec_rep_inset(cs: Seq<Cost>) -> Seq<char> {
    "IS"@ + crate::strutil::spec_flatten_strs(crate::strutil::spec_sort_strings(spec_cost_strings(cs)))
}

/// The weighting parameters shared by every kind of cost target.
pub struct CostTargetHelper {
    pub matches_required: i16,
    pub unmet_weight: i16,
    pub met_weight: i16,
    pub cache_string: String,
}

impl Clone for CostTargetHelper {
    fn clone(&self) -> (r: Self)
        ensures
            r.matches_required == self.matches_required,
            r.unmet_weight == self.unmet_weight,
            r.met_weight == self.met_weight,
            r.cache_string@ == self.cache_string@,
    {
        CostTargetHelper {
            matches_required: self.matches_required,
            unmet_weight: self.unmet_weight,
            met_weight: self.met_weight,
            cache_string: self.cache_string.clone(),
        }
    }
}

impl CostTargetHelper {
    /// The weights are stored so that `unmet_weight >= met_weight`.
    pub fn new(matches_needed: i16, unmet_w: i16, met_w: i16, cs: String) -> (h: CostTargetHelper)
        ensures
            h.matches_required == matches_needed,
            h.unmet_weight == if unmet_w < met_w {
                met_w
            } else {
                unmet_w
            },
            h.met_weight == if unmet_w < met_w {
                unmet_w
            } else {
                met_w
            },
            h.cache_string@ == cs@,
    {
        if unmet_w < met_w {
            CostTargetHelper {
                matches_required: matches_needed,
                unmet_weight: met_w,
                met_weight: unmet_w,
                cache_string: cs,
            }
        } else {
            CostTargetHelper {
                matches_required: matches_needed,
                unmet_weight: unmet_w,
                met_weight: met_w,
                cache_string: cs,
            }
        }
    }
}

/// Prefers costs offset by `cost_delta` from costs already selected;
/// when `no_less` only the exact offset, else a spread down to zero.
pub struct CostRelative {
    pub helper: CostTargetHelper,
    pub cost_delta: i8,
    pub no_less: bool,
}

impl View for CostRelative {
    type V = TargetShape;

    open spec fn view(&self) -> TargetShape {
        TargetShape::Relative {
            matches_required: self.helper.matches_required as int,
            unmet_weight: self.helper.unmet_weight as int,
            met_weight: self.helper.met_weight as int,
            rep: self.helper.cache_string@,
            delta: self.cost_delta as int,
            strict: self.no_less,
        }
    }
}

impl CostRelative {
    pub fn new(matches_needed: i16, unmet_w: i16, met_w: i16, delta: i8, strict: bool) -> (r:
        CostRelative)
        ensures
            r@ == (TargetShape::Relative {
                matches_required: matches_needed as int,
                unmet_weight: if unmet_w < met_w {
                    met_w as int
                } else {
                    unmet_w as int
                },
                met_weight: if unmet_w < met_w {
                    unmet_w as int
                } else {
                    met_w as int
                },
                rep: spec_rep_relative(strict, delta as int),
                delta: delta as int,
                strict: strict,
            }),
    {
        let mut cs = String::new();
        cs = cs.concat("CR");
        cs = cs.concat(if strict {
            "true"
        } else {
            "false"
        });
        let digits = i8_to_string(delta);
        cs = cs.concat(digits.as_str());
        proof {
            assert(cs@ =~= spec_rep_relative(strict, delta as int));
        }
        CostRelative {
            helper: CostTargetHelper::new(matches_needed, unmet_w, met_w, cs),
            cost_delta: delta,
            no_less: strict,
        }
    }
}

/// Prefers coin-only costs from 1 up to `limit`.
pub struct CostUpto {
    pub helper: CostTargetHelper,
    pub limit: i8,
}

impl View for CostUpto {
    type V = TargetShape;

    open spec fn view(&self) -> TargetShape {
        TargetShape::UpTo {
            matches_required: self.helper.matches_required as int,
            unmet_weight: self.helper.unmet_weight as int,
            met_weight: self.helper.met_weight as int,
            rep: self.helper.cache_string@,
            limit: self.limit as int,
        }
    }
}

impl CostUpto {
    pub fn new(matches_needed: i16, unmet_w: i16, met_w: i16, upper: i8) -> (r: CostUpto)
        ensures
            r@ == (TargetShape::UpTo {
                matches_required: matches_needed as int,
                unmet_weight: if unmet_w < met_w {
                    met_w as int
                } else {
                    unmet_w as int
                },
                met_weight: if unmet_w < met_w {
                    unmet_w as int
                } else {
                    met_w as int
                },
                rep: spec_rep_upto(upper as int),
                limit: upper as int,
            }),
    {
        let mut cs = String::new();
        cs = cs.concat("UT");
        let digits = i8_to_string(upper);
        cs = cs.concat(digits.as_str());
        proof {
            assert(cs@ =~= spec_rep_upto(upper as int));
        }
        CostUpto { helper: CostTargetHelper::new(matches_needed, unmet_w, met_w, cs), limit: upper }
    }
}

/// Prefers any cost from a fixed set.
pub struct CostInSet {
    pub helper: CostTargetHelper,
    pub costs: CostSet,
}

impl View for CostInSet {
    type V = TargetShape;

    open spec fn view(&self) -> TargetShape {
        TargetShape::InSet {
            matches_required: self.helper.matches_required as int,
            unmet_weight: self.helper.unmet_weight as int,
            met_weight: self.helper.met_weight as int,
            rep: self.helper.cache_string@,
            costs: self.costs@,
        }
    }
}

impl CostInSet {
    pub fn new(matches_needed: i16, unmet_w: i16, met_w: i16, s: CostSet) -> (r: CostInSet)
        ensures
            r@ == (TargetShape::InSet {
                matches_required: matches_needed as int,
                unmet_weight: if unmet_w < met_w {
                    met_w as int
                } else {
                    unmet_w as int
                },
                met_weight: if unmet_w < met_w {
                    unmet_w as int
                } else {
                    met_w as int
                },
                rep: spec_rep_inset(s@),
                costs: s@,
            }),
    {
        let n = s.len();
        let mut strs: Vec<String> = Vec::new();
        let mut i: usize = 0;
        while i < n
            invariant
                0 <= i <= n,
                n == s@.len(),
                strs.deep_view() == spec_cost_strings(s@.subrange(0, i as int)),
            decreases n - i,
        {
            let ghost prev = strs.deep_view();
            let c = s.index(i);
            strs.push(c.get_string());
            proof {
                assert(strs.deep_view() =~~= prev.push(c.spec_string()));
                assert(strs.deep_view() =~~= spec_cost_strings(s@.subrange(0, i + 1)));
            }
            i += 1;
        }
        proof {
            assert(s@.subrange(0, n as int) =~= s@);
        }
        let sorted = crate::strutil::sort_strings(strs);
        let ghost sv = sorted.deep_view();
        let mut cs = String::new();
        cs = cs.concat("IS");
        let mut j: usize = 0;
        let m = sorted.len();
        proof {
            assert(sv.subrange(0, 0) =~~= Seq::<Seq<char>>::empty());
            assert(cs@ =~= "IS"@ + crate::strutil::spec_flatten_strs(sv.subrange(0, 0)));
        }
        while j < m
            invariant
                0 <= j <= m,
                m == sorted@.len(),
                sorted.deep_view() == sv,
                sv == crate::strutil::spec_sort_strings(spec_cost_strings(s@)),
                cs@ == "IS"@ + crate::strutil::spec_flatten_strs(sv.subrange(0, j as int)),
            decreases m - j,
        {
            cs = cs.concat(sorted[j].as_str());
            proof {
                assert(sv.subrange(0, j + 1) =~~= sv.subrange(0, j as int).push(sv[j as int]));
                crate::strutil::lemma_flatten_push(sv.subrange(0, j as int), sv[j as int]);
                assert(cs@ =~= "IS"@ + crate::strutil::spec_flatten_strs(sv.subrange(0, j + 1)));
            }
            j += 1;
        }
        proof {
            assert(sv.subrange(0, m as int) =~~= sv);
            assert(cs@ =~= spec_rep_inset(s@));
        }
        CostInSet { helper: CostTargetHelper::new(matches_needed, unmet_w, met_w, cs), costs: s }
    }
}

/// A cost target: a weighted preference for certain costs, decoded from a
/// card's `cost...` interaction string.
pub enum CostTarget {
    Relative(CostRelative),
    UpTo(CostUpto),
    InSet(CostInSet),
}

impl View for CostTarget {
    type V = TargetShape;

    open spec fn view(&self) -> TargetShape {
        match self {
            CostTarget::Relative(r) => r@,
            CostTarget::UpTo(u) => u@,
            CostTarget::InSet(i) => i@,
        }
    }
}

impl DeepView for CostTarget {
    type V = TargetShape;

    open spec fn deep_view(&self) -> TargetShape {
        self.view()
    }
}

pub open spec fn spec_shape_rep(t: TargetShape) -> Seq<char> {
    match t {
        TargetShape::Relative { rep, .. } => rep,
        TargetShape::UpTo { rep, .. } => rep,
        TargetShape::InSet { rep, .. } => rep,
    }
}

impl Clone for CostTarget {
    fn clone(&self) -> (r: Self)
        ensures
            r@ == self@,
    {
        match self {
            CostTarget::Relative(r) => CostTarget::Relative(
                CostRelative {
                    helper: r.helper.clone(),
                    cost_delta: r.cost_delta,
                    no_less: r.no_less,
                },
            ),
            CostTarget::UpTo(u) => CostTarget::UpTo(
                CostUpto { helper: u.helper.clone(), limit: u.limit },
            ),
            CostTarget::InSet(i) => CostTarget::InSet(
                CostInSet { helper: i.helper.clone(), costs: i.costs.clone() },
            ),
        }
    }
}

/// A card's deduplicated cost targets.
pub type Targets = Vec<CostTarget>;

/// Addition on `i64` that clamps instead of overflowing; exact everywhere
/// the engine's small weights are in play.
pub open spec fn spec_sat_add(a: int, b: int) -> int {
    let s = a + b;
    if s < -0x8000_0000_0000_0000 {
        -0x8000_0000_0000_0000
    } else if s > 0x7fff_ffff_ffff_ffff {
        0x7fff_ffff_ffff_ffff
    } else {
        s
    }
}

fn sat_add(a: i64, b: i64) -> (r: i64)
    ensures
        r as int == spec_sat_add(a as int, b as int),
{
    let s: i128 = a as i128 + b as i128;
    if s < i64::MIN as i128 {
        i64::MIN
    } else if s > i64::MAX as i128 {
        i64::MAX
    } else {
        s as i64
    }
}

/// `a` thousandths divided by `b`, truncated toward zero; zero when `b` is.
pub open spec fn spec_scaled_div(a: int, b: int) -> int {
    if b <= 0 {
        0
    } else if a >= 0 {
        (a * 1000) / b
    } else {
        -(((-a) * 1000) / b)
    }
}

fn scaled_div(a: i64, b: u64) -> (r: i64)
    requires
        -100_000 <= a <= 100_000,
    ensures
        r as int == spec_scaled_div(a as int, b as int),
        -100_000_000 <= r <= 100_000_000,
{
    if b == 0 {
        0
    } else if a >= 0 {
        let q: u64 = (a as u64 * 1000) / b;
        assert(q <= 100_000_000) by (nonlinear_arith)
            requires
                0 <= a <= 100_000 && b >= 1 && q == (a * 1000) / (b as int),
        ;
        q as i64
    } else {
        let m: u64 = ((-a) as u64 * 1000) / b;
        assert(m <= 100_000_000) by (nonlinear_arith)
            requires
                -100_000 <= a < 0 && b >= 1 && m == ((-a) * 1000) / (b as int),
        ;
        -(m as i64)
    }
}

/// The first tally recorded for `c`, if any.
pub open spec fn spec_lookup(s: Seq<(Cost, i64)>, c: Cost) -> Option<int>
    decreases s.len(),
{
    if s.len() == 0 {
        None
    } else if s[0].0 == c {
        Some(s[0].1 as int)
    } else {
        spec_lookup(s.skip(1), c)
    }
}

proof fn lemma_lookup_push(s: Seq<(Cost, i64)>, c: Cost, v: i64, d: Cost)
    ensures
        spec_lookup(s.push((c, v)), d) == if spec_lookup(s, d) is Some {
            spec_lookup(s, d)
        } else if d == c {
            Some(v as int)
        } else {
            None::<int>
        },
    decreases s.len(),
{
    if s.len() == 0 {
        assert(s.push((c, v))[0] == (c, v));
        assert(s.push((c, v)).skip(1) =~= Seq::<(Cost, i64)>::empty());
        assert(spec_lookup(Seq::<(Cost, i64)>::empty(), d) is None);
        assert(spec_lookup(s, d) is None);
    } else {
        lemma_lookup_push(s.skip(1), c, v, d);
        assert(s.push((c, v))[0] == s[0]);
        assert(s.push((c, v)).skip(1) =~= s.skip(1).push((c, v)));
    }
}

proof fn lemma_lookup_update(s: Seq<(Cost, i64)>, i: int, v: i64, d: Cost)
    requires
        0 <= i < s.len(),
        forall|j: int| 0 <= j < i ==> (#[trigger] s[j]).0 != s[i].0,
    ensures
        spec_lookup(s.update(i, (s[i].0, v)), s[i].0) == Some(v as int),
        d != s[i].0 ==> spec_lookup(s.update(i, (s[i].0, v)), d) == spec_lookup(s, d),
    decreases s.len(),
{
    if i == 0 {
        assert(s.update(0, (s[0].0, v)).skip(1) =~= s.skip(1));
    } else {
        lemma_lookup_update(s.skip(1), i - 1, v, d);
        assert(s.update(i, (s[i].0, v)).skip(1) =~= s.skip(1).update(i - 1, (s[i].0, v)));
        assert(s.update(i, (s[i].0, v))[0] == s[0]);
    }
}

/// The largest tally recorded, or zero if nothing beats it.
pub open spec fn spec_max_tally(s: Seq<(Cost, i64)>) -> int
    decreases s.len(),
{
    if s.len() == 0 {
        0
    } else {
        let m = spec_max_tally(s.drop_last());
        if s.last().1 > m {
            s.last().1 as int
        } else {
            m
        }
    }
}

/// Weighted votes over the costs that occur in the catalog; votes for
/// unknown costs are ignored. Tallies are integers in thousandths.
pub struct CostVotes {
    available_costs: CostSet,
    votes: Vec<(Cost, i64)>,
}

impl CostVotes {
    pub closed spec fn spec_available(self) -> Seq<Cost> {
        self.available_costs@
    }

    pub closed spec fn spec_votes(self) -> Seq<(Cost, i64)> {
        self.votes@
    }

    /// The tally of `c`: zero until a vote for it arrives.
    pub open spec fn spec_tally(self, c: Cost) -> int {
        match spec_lookup(self.spec_votes(), c) {
            Some(v) => v,
            None => 0,
        }
    }

    pub fn new(legal_costs: CostSet) -> (r: CostVotes)
        ensures
            r.spec_available() == legal_costs@,
            r.spec_votes() == Seq::<(Cost, i64)>::empty(),
    {
        CostVotes { available_costs: legal_costs, votes: Vec::new() }
    }

    /// Accumulate `diff` onto the tally of `c`, but only if `c` is legal.
    pub fn add_vote(&mut self, c: &Cost, diff: i64)
        ensures
            final(self).spec_available() == old(self).spec_available(),
            !old(self).spec_available().contains(*c) ==> final(self).spec_votes() == old(
                self,
            ).spec_votes(),
            old(self).spec_available().contains(*c) ==> {
                &&& spec_lookup(final(self).spec_votes(), *c) == Some(
                    spec_sat_add(old(self).spec_tally(*c), diff as int),
                )
                &&& forall|d: Cost|
                    d != *c ==> spec_lookup(final(self).spec_votes(), d) == spec_lookup(
                        old(self).spec_votes(),
                        d,
                    )
            },
    {
        if self.available_costs.contains(c) {
            let n = self.votes.len();
            let mut i: usize = 0;
            while i < n
                invariant
                    0 <= i <= n,
                    n == self.votes@.len(),
                    self.votes@ == old(self).spec_votes(),
                    self.available_costs@ == old(self).spec_available(),
                    old(self).spec_available().contains(*c),
                    forall|j: int| 0 <= j < i ==> (#[trigger] self.votes@[j]).0 != *c,
                decreases n - i,
            {
                if self.votes[i].0 == *c {
                    let newval = sat_add(self.votes[i].1, diff);
                    let ghost pre = self.votes@;
                    let key = self.votes[i].0;
                    self.votes.set(i, (key, newval));
                    proof {
                        assert(self.votes@ =~= pre.update(i as int, (pre[i as int].0, newval)));
                        lemma_lookup_skip_prefix(pre, i as int, *c);
                        assert(old(self).spec_tally(*c) == pre[i as int].1 as int);
                        lemma_lookup_update(pre, i as int, newval, *c);
                        assert(spec_lookup(self.votes@, *c) == Some(newval as int));
                        assert forall|d: Cost| d != *c implies spec_lookup(self.votes@, d)
                            == spec_lookup(pre, d) by {
                            lemma_lookup_update(pre, i as int, newval, d);
                        }
                    }
                    return ;
                }
                i += 1;
            }
            // no tally yet: the old tally is zero
            let ghost pre = self.votes@;
            proof {
                lemma_lookup_none(pre, *c);
                assert(old(self).spec_tally(*c) == 0);
            }
            self.votes.push((*c, diff));
            proof {
                assert(self.votes@ =~= pre.push((*c, diff)));
                lemma_lookup_push(pre, *c, diff, *c);
                assert(spec_lookup(self.votes@, *c) == Some(diff as int));
                assert(spec_sat_add(0, diff as int) == diff as int);
                assert forall|d: Cost| d != *c implies spec_lookup(self.votes@, d) == spec_lookup(
                    pre,
                    d,
                ) by {
                    lemma_lookup_push(pre, *c, diff, d);
                }
            }
        }
    }

    /// The peak tally `m`, written to `max_cost`: every cost whose tally is
    /// within `tolerance` of `m`, provided `m` reaches `threshold`. Returns
    /// whether the peak reached the threshold and was positive.
    pub fn get_max_weighted(&self, max_cost: &mut CostSet, threshold: i64, tolerance: i64) -> (r:
        bool)
        ensures
            ({
                let m = spec_max_tally(self.spec_votes());
                &&& r == (m >= threshold && m > 0)
                &&& (m < threshold ==> final(max_cost)@ == old(max_cost)@)
                &&& (m >= threshold ==> (forall|c: Cost|
                    final(max_cost)@.contains(c) <==> (old(max_cost)@.contains(c) || exists|i: int|
                        0 <= i < self.spec_votes().len() && (#[trigger] self.spec_votes()[i]).0
                            == c && m - self.spec_votes()[i].1 <= tolerance)))
            }),
    {
        let n = self.votes.len();
        let mut max: i64 = 0;
        let mut i: usize = 0;
        while i < n
            invariant
                0 <= i <= n,
                n == self.votes@.len(),
                max as int == spec_max_tally(self.votes@.subrange(0, i as int)),
            decreases n - i,
        {
            proof {
                assert(self.votes@.subrange(0, i + 1).drop_last() =~= self.votes@.subrange(
                    0,
                    i as int,
                ));
            }
            if self.votes[i].1 > max {
                max = self.votes[i].1;
            }
            i += 1;
        }
        proof {
            assert(self.votes@.subrange(0, n as int) =~= self.votes@);
        }
        if max < threshold {
            return false;
        }
        let mut k: usize = 0;
        while k < n
            invariant
                0 <= k <= n,
                n == self.votes@.len(),
                max as int == spec_max_tally(self.votes@),
                max >= threshold,
                forall|c: Cost|
                    max_cost@.contains(c) <==> (old(max_cost)@.contains(c) || exists|i: int|
                        0 <= i < k && (#[trigger] self.votes@[i]).0 == c && max - self.votes@[i].1
                            <= tolerance),
            decreases n - k,
        {
            let (key, v) = self.votes[k];
            let ghost pre = max_cost@;
            let diff: i128 = max as i128 - v as i128;
            if diff <= tolerance as i128 {
                max_cost.insert(key);
            }
            proof {
                assert forall|c: Cost| max_cost@.contains(c) <==> (old(max_cost)@.contains(c)
                    || exists|i: int|
                    0 <= i < k + 1 && (#[trigger] self.votes@[i]).0 == c && max as int
                        - self.votes@[i].1 <= tolerance) by {
                    if !pre.contains(key) && max as int - v as int <= tolerance {
                        lemma_cost_push_contains(pre, key, c);
                    } else {
                        assert(max_cost@ == pre);
                    }
                    if max as int - v as int <= tolerance && c == key {
                        assert(self.votes@[k as int].0 == c && max as int - self.votes@[k
                            as int].1 <= tolerance);
                    }
                    if pre.contains(c) {
                        assert(max_cost@.contains(c));
                    }
                }
            }
            k += 1;
        }
        max > 0
    }
}

proof fn lemma_cost_push_contains(s: Seq<Cost>, x: Cost, c: Cost)
    ensures
        s.push(x).contains(c) <==> (s.contains(c) || c == x),
{
    if s.contains(c) {
        let i = choose|i: int| 0 <= i < s.len() && s[i] == c;
        assert(s.push(x)[i] == c);
    }
    if c == x {
        assert(s.push(x)[s.len() as int] == c);
    }
    if s.push(x).contains(c) {
        let i = choose|i: int| 0 <= i < s.push(x).len() && s.push(x)[i] == c;
        if i < s.len() {
            assert(s[i] == c);
        }
    }
}

proof fn lemma_lookup_skip_prefix(s: Seq<(Cost, i64)>, i: int, c: Cost)
    requires
        0 <= i < s.len(),
        s[i].0 == c,
        forall|j: int| 0 <= j < i ==> (#[trigger] s[j]).0 != c,
    ensures
        spec_lookup(s, c) == Some(s[i].1 as int),
    decreases i,
{
    if i > 0 {
        lemma_lookup_skip_prefix(s.skip(1), i - 1, c);
    }
}

proof fn lemma_lookup_none(s: Seq<(Cost, i64)>, c: Cost)
    requires
        forall|j: int| 0 <= j < s.len() ==> (#[trigger] s[j]).0 != c,
    ensures
        spec_lookup(s, c) is None,
    decreases s.len(),
{
    if s.len() > 0 {
        lemma_lookup_none(s.skip(1), c);
    }
}

/// How many of the costs move by `delta` onto another cost of the set.
pub open spec fn count_rel_matched(s: Seq<Cost>, whole: Seq<Cost>, delta: int) -> int
    decreases s.len(),
{
    if s.len() == 0 {
        0
    } else {
        count_rel_matched(s.drop_last(), whole, delta) + if whole.contains(
            s.last().spec_rel_cost(delta),
        ) {
            1int
        } else {
            0int
        }
    }
}

/// How many of the costs are coin-only and within the limit.
pub open spec fn count_upto_matched(s: Seq<Cost>, limit: int) -> int
    decreases s.len(),
{
    if s.len() == 0 {
        0
    } else {
        count_upto_matched(s.drop_last(), limit) + if s.last().potion is None && s.last().debt
            is None && (match s.last().coin {
            Some(v) => v as int,
            None => -1,
        }) <= limit {
            1int
        } else {
            0int
        }
    }
}

/// The vote an up-to target casts on each cost of its range.
pub open spec fn spec_upto_weight(t: CostUpto, current: Seq<Cost>) -> int {
    spec_scaled_div(
        if count_upto_matched(current, t.limit as int) >= t.helper.matches_required as int {
            t.helper.met_weight as int
        } else {
            t.helper.unmet_weight as int
        },
        if t.limit <= 0 {
            0int
        } else {
            t.limit as int
        },
    )
}

/// How many of the costs lie in the target set.
pub open spec fn count_inset_matched(s: Seq<Cost>, inset: Seq<Cost>) -> int
    decreases s.len(),
{
    if s.len() == 0 {
        0
    } else {
        count_inset_matched(s.drop_last(), inset) + if inset.contains(s.last()) {
            1int
        } else {
            0int
        }
    }
}

pub open spec fn spec_coin_val(c: Cost) -> int {
    match c.coin {
        Some(v) => v as int,
        None => -1,
    }
}

/// The coin-only cost of a given amount.
pub open spec fn spec_coin_cost(v: int) -> Cost {
    Cost { coin: Some(v as i8), potion: None, debt: None }
}

/// A coin-only cost from 1 up to the limit: the costs an up-to target
/// votes for.
pub open spec fn spec_in_upto_range(c: Cost, limit: int) -> bool {
    &&& c.potion is None
    &&& c.debt is None
    &&& match c.coin {
        Some(k) => 1 <= k as int <= limit,
        None => false,
    }
}

/// How often a cost occurs in a list.
pub open spec fn seq_cost_count(s: Seq<Cost>, c: Cost) -> int
    decreases s.len(),
{
    if s.len() == 0 {
        0
    } else {
        seq_cost_count(s.drop_last(), c) + if s.last() == c {
            1int
        } else {
            0int
        }
    }
}

/// A count of occurrences is never negative.
pub proof fn lemma_seq_cost_count_nonneg(s: Seq<Cost>, c: Cost)
    ensures
        seq_cost_count(s, c) >= 0,
    decreases s.len(),
{
    if s.len() > 0 {
        lemma_seq_cost_count_nonneg(s.drop_last(), c);
    }
}

/// `n` saturating additions of `w` onto `t`.
pub open spec fn spec_sat_add_n(t: int, w: int, n: int) -> int
    decreases n,
{
    if n <= 0 {
        t
    } else {
        spec_sat_add(spec_sat_add_n(t, w, n - 1), w)
    }
}

/// A cost reachable from one of the current coin costs by the offset:
/// same potion and debt parts, coin between zero and the shifted coin.
pub open spec fn spec_derived_cost(cur: Seq<Cost>, c: Cost, delta: int) -> bool {
    exists|i: int|
        {
            &&& 0 <= i < cur.len()
            &&& (#[trigger] cur[i]).coin is Some
            &&& c.potion == cur[i].potion
            &&& c.debt == cur[i].debt
            &&& match c.coin {
                Some(m) => 0 <= m as int <= spec_coin_val(cur[i].spec_rel_cost(delta)),
                None => false,
            }
        }
}

impl CostTarget {
    /// The canonical string, by which targets are deduplicated.
    pub fn str_rep(&self) -> (r: &String)
        ensures
            r@ == spec_shape_rep(self@),
    {
        match self {
            CostTarget::Relative(r) => &r.helper.cache_string,
            CostTarget::UpTo(u) => &u.helper.cache_string,
            CostTarget::InSet(i) => &i.helper.cache_string,
        }
    }

    /// How many matches this target needs before it counts as satisfied.
    pub open spec fn spec_matches_required(self) -> int {
        match self@ {
            TargetShape::Relative { matches_required, .. } => matches_required,
            TargetShape::UpTo { matches_required, .. } => matches_required,
            TargetShape::InSet { matches_required, .. } => matches_required,
        }
    }

    /// How many of `current` satisfy this target's preference already.
    pub open spec fn spec_matched(self, current: Seq<Cost>) -> int {
        match self@ {
            TargetShape::Relative { delta, .. } => count_rel_matched(current, current, delta),
            TargetShape::UpTo { limit, .. } => count_upto_matched(current, limit),
            TargetShape::InSet { costs, .. } => count_inset_matched(current, costs),
        }
    }

    /// Cast votes for the costs this target prefers, given the costs already
    /// selected. Returns whether the target is still short of matches.
    /// Only legal costs' tallies move; the available set never changes.
    /// An up-to target adds its scaled weight to each coin-only cost of its
    /// range and nothing else; an in-set target adds it once per occurrence
    /// to each member of its set and nothing else; a relative target moves
    /// only tallies of costs derived from the current coined costs, and a
    /// strictly downward `no_less` target casts no votes at all.
    pub fn add_votes(&self, current_costs: &CostSet, votes: &mut CostVotes) -> (r: bool)
        ensures
            r == (self.spec_matched(current_costs@) < self.spec_matches_required()),
            final(votes).spec_available() == old(votes).spec_available(),
            forall|c: Cost|
                !old(votes).spec_available().contains(c) ==> spec_lookup(
                    final(votes).spec_votes(),
                    c,
                ) == spec_lookup(old(votes).spec_votes(), c),
            self matches CostTarget::UpTo(t) ==> {
                let w = spec_upto_weight(*t, current_costs@);
                &&& (forall|v: int|
                    1 <= v <= t.limit as int && old(votes).spec_available().contains(
                        spec_coin_cost(v),
                    ) ==> spec_lookup(final(votes).spec_votes(), spec_coin_cost(v)) == Some(
                        spec_sat_add(old(votes).spec_tally(spec_coin_cost(v)), w),
                    ))
                &&& (forall|c: Cost|
                    !spec_in_upto_range(c, t.limit as int) ==> spec_lookup(
                        final(votes).spec_votes(),
                        c,
                    ) == spec_lookup(old(votes).spec_votes(), c))
            },
            self matches CostTarget::InSet(t) ==> {
                let w = spec_inset_weight(*t, current_costs@);
                &&& (forall|c: Cost|
                    old(votes).spec_available().contains(c) ==> spec_lookup(
                        final(votes).spec_votes(),
                        c,
                    ) == (if seq_cost_count(t.costs@, c) == 0 {
                        spec_lookup(old(votes).spec_votes(), c)
                    } else {
                        Some(
                            spec_sat_add_n(
                                old(votes).spec_tally(c),
                                w,
                                seq_cost_count(t.costs@, c),
                            ),
                        )
                    }))
                &&& (forall|c: Cost|
                    seq_cost_count(t.costs@, c) == 0 ==> spec_lookup(final(votes).spec_votes(), c)
                        == spec_lookup(old(votes).spec_votes(), c))
            },
            self matches CostTarget::Relative(t) ==> {
                &&& ((t.no_less && t.cost_delta < 0) ==> final(votes).spec_votes() == old(
                    votes,
                ).spec_votes())
                &&& (forall|d: Cost|
                    spec_lookup(final(votes).spec_votes(), d) != spec_lookup(
                        old(votes).spec_votes(),
                        d,
                    ) ==> spec_derived_cost(current_costs@, d, t.cost_delta as int))
            },
    {
        match self {
            CostTarget::Relative(t) => t.add_votes(current_costs, votes),
            CostTarget::UpTo(t) => t.add_votes(current_costs, votes),
            CostTarget::InSet(t) => t.add_votes(current_costs, votes),
        }
    }
}

/// A cost with the same potion and debt parts as a current coined cost,
/// and a coin between zero and that cost's shifted coin, is derived.
proof fn lemma_derived_witness(cur: Seq<Cost>, c: Cost, d: Cost, delta: int)
    requires
        cur.contains(c),
        c.coin is Some,
        d.potion == c.potion,
        d.debt == c.debt,
        d.coin is Some,
        0 <= spec_coin_val(d) <= spec_coin_val(c.spec_rel_cost(delta)),
    ensures
        spec_derived_cost(cur, d, delta),
{
    let ii = choose|ii: int| 0 <= ii < cur.len() && cur[ii] == c;
    assert(cur[ii].coin is Some);
    assert(match d.coin {
        Some(m) => 0 <= m as int <= spec_coin_val(cur[ii].spec_rel_cost(delta)),
        None => false,
    });
}

impl CostRelative {
    fn add_votes(&self, current_costs: &CostSet, votes: &mut CostVotes) -> (r: bool)
        ensures
            r == (count_rel_matched(current_costs@, current_costs@, self.cost_delta as int)
                < self.helper.matches_required as int),
            final(votes).spec_available() == old(votes).spec_available(),
            forall|c: Cost|
                !old(votes).spec_available().contains(c) ==> spec_lookup(
                    final(votes).spec_votes(),
                    c,
                ) == spec_lookup(old(votes).spec_votes(), c),
            (self.no_less && self.cost_delta < 0) ==> final(votes).spec_votes() == old(
                votes,
            ).spec_votes(),
            forall|d: Cost|
                spec_lookup(final(votes).spec_votes(), d) != spec_lookup(
                    old(votes).spec_votes(),
                    d,
                ) ==> spec_derived_cost(current_costs@, d, self.cost_delta as int),
    {
        let n = current_costs.len();
        let mut matched: u64 = 0;
        let mut i: usize = 0;
        while i < n
            invariant
                0 <= i <= n,
                n == current_costs@.len(),
                matched == count_rel_matched(
                    current_costs@.subrange(0, i as int),
                    current_costs@,
                    self.cost_delta as int,
                ),
                matched <= i,
            decreases n - i,
        {
            proof {
                assert(current_costs@.subrange(0, i + 1).drop_last() =~= current_costs@.subrange(
                    0,
                    i as int,
                ));
            }
            let adj = current_costs.index(i).get_rel_cost(self.cost_delta);
            if current_costs.contains(&adj) {
                matched += 1;
            }
            i += 1;
        }
        proof {
            assert(current_costs@.subrange(0, n as int) =~= current_costs@);
        }

        let weight = scaled_div(self.helper.met_weight as i64, n as u64);
        if self.cost_delta < 0 {
            let mut i: usize = 0;
            while i < n
                invariant
                    0 <= i <= n,
                    n == current_costs@.len(),
                    self.cost_delta < 0,
                    votes.spec_available() == old(votes).spec_available(),
                    forall|c: Cost|
                        !old(votes).spec_available().contains(c) ==> spec_lookup(
                            votes.spec_votes(),
                            c,
                        ) == spec_lookup(old(votes).spec_votes(), c),
                    self.no_less ==> votes.spec_votes() == old(votes).spec_votes(),
                    forall|d: Cost|
                        spec_lookup(votes.spec_votes(), d) != spec_lookup(
                            old(votes).spec_votes(),
                            d,
                        ) ==> spec_derived_cost(current_costs@, d, self.cost_delta as int),
                decreases n - i,
            {
                let c = current_costs.index(i);
                proof {
                    assert(current_costs@.contains(c));
                }
                i += 1;
                let coin = match c.get_coin() {
                    Some(v) => v,
                    None => { continue ; },
                };
                // the offset must not push the coin below zero
                if (coin as i16) < -(self.cost_delta as i16) {
                    continue ;
                }
                let mut target = c.get_rel_cost(self.cost_delta);
                if !self.no_less {
                    // every cost from the offset down to zero
                    loop
                        invariant
                            target.coin is Some,
                            spec_coin_val(target) >= 0,
                            current_costs@.contains(c),
                            c.coin is Some,
                            target.potion == c.potion,
                            target.debt == c.debt,
                            spec_coin_val(target) <= spec_coin_val(
                                c.spec_rel_cost(self.cost_delta as int),
                            ),
                            votes.spec_available() == old(votes).spec_available(),
                            forall|c: Cost|
                                !old(votes).spec_available().contains(c) ==> spec_lookup(
                                    votes.spec_votes(),
                                    c,
                                ) == spec_lookup(old(votes).spec_votes(), c),
                            forall|d: Cost|
                                spec_lookup(votes.spec_votes(), d) != spec_lookup(
                                    old(votes).spec_votes(),
                                    d,
                                ) ==> spec_derived_cost(current_costs@, d, self.cost_delta as int),
                        decreases spec_coin_val(target),
                    {
                        let tc = match target.get_coin() {
                            Some(v) => v,
                            None => 0,
                        };
                        if tc <= 0 {
                            break ;
                        }
                        let ghost pre = *votes;
                        votes.add_vote(&target, weight);
                        proof {
                            lemma_derived_witness(
                                current_costs@,
                                c,
                                target,
                                self.cost_delta as int,
                            );
                            assert forall|d: Cost|
                                spec_lookup(votes.spec_votes(), d) != spec_lookup(
                                    old(votes).spec_votes(),
                                    d,
                                ) implies spec_derived_cost(
                                current_costs@,
                                d,
                                self.cost_delta as int,
                            ) by {
                                if spec_lookup(votes.spec_votes(), d) != spec_lookup(
                                    pre.spec_votes(),
                                    d,
                                ) {
                                    assert(d == target);
                                }
                            }
                        }
                        target = target.get_rel_cost(-1);
                    }
                    let ghost pre = *votes;
                    votes.add_vote(&target, weight);
                    proof {
                        lemma_derived_witness(current_costs@, c, target, self.cost_delta as int);
                        assert forall|d: Cost|
                            spec_lookup(votes.spec_votes(), d) != spec_lookup(
                                old(votes).spec_votes(),
                                d,
                            ) implies spec_derived_cost(
                            current_costs@,
                            d,
                            self.cost_delta as int,
                        ) by {
                            if spec_lookup(votes.spec_votes(), d) != spec_lookup(
                                pre.spec_votes(),
                                d,
                            ) {
                                assert(d == target);
                            }
                        }
                    }
                }
            }
        } else {
            let boost = {
                let d: i64 = self.helper.unmet_weight as i64 - self.helper.met_weight as i64;
                scaled_div(d, self.cost_delta as u64)
            };
            let mut i: usize = 0;
            while i < n
                invariant
                    0 <= i <= n,
                    n == current_costs@.len(),
                    -200_000_000 <= weight + boost <= 200_000_000,
                    votes.spec_available() == old(votes).spec_available(),
                    forall|c: Cost|
                        !old(votes).spec_available().contains(c) ==> spec_lookup(
                            votes.spec_votes(),
                            c,
                        ) == spec_lookup(old(votes).spec_votes(), c),
                    forall|d: Cost|
                        spec_lookup(votes.spec_votes(), d) != spec_lookup(
                            old(votes).spec_votes(),
                            d,
                        ) ==> spec_derived_cost(current_costs@, d, self.cost_delta as int),
                decreases n - i,
            {
                let c = current_costs.index(i);
                proof {
                    assert(current_costs@.contains(c));
                }
                i += 1;
                if !c.has_coin() {
                    continue ;
                }
                let mut target = c.get_rel_cost(self.cost_delta);
                if self.no_less {
                    let ghost pre = *votes;
                    votes.add_vote(&target, weight + boost);
                    proof {
                        lemma_derived_witness(current_costs@, c, target, self.cost_delta as int);
                        assert forall|d: Cost|
                            spec_lookup(votes.spec_votes(), d) != spec_lookup(
                                old(votes).spec_votes(),
                                d,
                            ) implies spec_derived_cost(
                            current_costs@,
                            d,
                            self.cost_delta as int,
                        ) by {
                            if spec_lookup(votes.spec_votes(), d) != spec_lookup(
                                pre.spec_votes(),
                                d,
                            ) {
                                assert(d == target);
                            }
                        }
                    }
                } else {
                    // the costs strictly above the current one
                    loop
                        invariant
                            target.coin is Some,
                            target.potion == c.potion,
                            target.debt == c.debt,
                            spec_coin_val(target) >= 0,
                            current_costs@.contains(c),
                            c.coin is Some,
                            spec_coin_val(target) <= spec_coin_val(
                                c.spec_rel_cost(self.cost_delta as int),
                            ),
                            -200_000_000 <= weight + boost <= 200_000_000,
                            votes.spec_available() == old(votes).spec_available(),
                            forall|d: Cost|
                                !old(votes).spec_available().contains(d) ==> spec_lookup(
                                    votes.spec_votes(),
                                    d,
                                ) == spec_lookup(old(votes).spec_votes(), d),
                            forall|d: Cost|
                                spec_lookup(votes.spec_votes(), d) != spec_lookup(
                                    old(votes).spec_votes(),
                                    d,
                                ) ==> spec_derived_cost(current_costs@, d, self.cost_delta as int),
                        decreases spec_coin_val(target),
                    {
                        if target == c {
                            break ;
                        }
                        let tc = match target.get_coin() {
                            Some(v) => v,
                            None => 0,
                        };
                        if tc <= 0 {
                            break ;
                        }
                        let ghost pre = *votes;
                        votes.add_vote(&target, weight + boost);
                        proof {
                            lemma_derived_witness(
                                current_costs@,
                                c,
                                target,
                                self.cost_delta as int,
                            );
                            assert forall|d: Cost|
                                spec_lookup(votes.spec_votes(), d) != spec_lookup(
                                    old(votes).spec_votes(),
                                    d,
                                ) implies spec_derived_cost(
                                current_costs@,
                                d,
                                self.cost_delta as int,
                            ) by {
                                if spec_lookup(votes.spec_votes(), d) != spec_lookup(
                                    pre.spec_votes(),
                                    d,
                                ) {
                                    assert(d == target);
                                }
                            }
                        }
                        target = target.get_rel_cost(-1);
                    }
                    // and up to `delta` costs below, kept at zero or above
                    let mut k: i16 = 0;
                    while k < self.cost_delta as i16
                        invariant
                            0 <= k,
                            target.coin is Some,
                            spec_coin_val(target) >= 0,
                            target.potion == c.potion,
                            target.debt == c.debt,
                            current_costs@.contains(c),
                            c.coin is Some,
                            spec_coin_val(target) <= spec_coin_val(
                                c.spec_rel_cost(self.cost_delta as int),
                            ),
                            votes.spec_available() == old(votes).spec_available(),
                            forall|d: Cost|
                                !old(votes).spec_available().contains(d) ==> spec_lookup(
                                    votes.spec_votes(),
                                    d,
                                ) == spec_lookup(old(votes).spec_votes(), d),
                            forall|d: Cost|
                                spec_lookup(votes.spec_votes(), d) != spec_lookup(
                                    old(votes).spec_votes(),
                                    d,
                                ) ==> spec_derived_cost(current_costs@, d, self.cost_delta as int),
                        decreases self.cost_delta as i16 - k,
                    {
                        let tc = match target.get_coin() {
                            Some(v) => v,
                            None => 0,
                        };
                        if tc <= 0 {
                            break ;
                        }
                        let ghost pre = *votes;
                        votes.add_vote(&target, weight);
                        proof {
                            lemma_derived_witness(
                                current_costs@,
                                c,
                                target,
                                self.cost_delta as int,
                            );
                            assert forall|d: Cost|
                                spec_lookup(votes.spec_votes(), d) != spec_lookup(
                                    old(votes).spec_votes(),
                                    d,
                                ) implies spec_derived_cost(
                                current_costs@,
                                d,
                                self.cost_delta as int,
                            ) by {
                                if spec_lookup(votes.spec_votes(), d) != spec_lookup(
                                    pre.spec_votes(),
                                    d,
                                ) {
                                    assert(d == target);
                                }
                            }
                        }
                        target = target.get_rel_cost(-1);
                        k += 1;
                    }
                    let ghost pre = *votes;
                    votes.add_vote(&target, weight);
                    proof {
                        lemma_derived_witness(current_costs@, c, target, self.cost_delta as int);
                        assert forall|d: Cost|
                            spec_lookup(votes.spec_votes(), d) != spec_lookup(
                                old(votes).spec_votes(),
                                d,
                            ) implies spec_derived_cost(
                            current_costs@,
                            d,
                            self.cost_delta as int,
                        ) by {
                            if spec_lookup(votes.spec_votes(), d) != spec_lookup(
                                pre.spec_votes(),
                                d,
                            ) {
                                assert(d == target);
                            }
                        }
                    }
                }
            }
        }
        let req = self.helper.matches_required;
        if req <= 0 {
            false
        } else {
            matched < req as u64
        }
    }
}

impl CostUpto {
    fn add_votes(&self, current_costs: &CostSet, votes: &mut CostVotes) -> (r: bool)
        ensures
            r == (count_upto_matched(current_costs@, self.limit as int)
                < self.helper.matches_required as int),
            final(votes).spec_available() == old(votes).spec_available(),
            forall|c: Cost|
                !old(votes).spec_available().contains(c) ==> spec_lookup(
                    final(votes).spec_votes(),
                    c,
                ) == spec_lookup(old(votes).spec_votes(), c),
            ({
                let w = spec_upto_weight(*self, current_costs@);
                &&& (forall|v: int|
                    1 <= v <= self.limit as int && old(votes).spec_available().contains(
                        spec_coin_cost(v),
                    ) ==> spec_lookup(final(votes).spec_votes(), spec_coin_cost(v)) == Some(
                        spec_sat_add(old(votes).spec_tally(spec_coin_cost(v)), w),
                    ))
                &&& (forall|c: Cost|
                    !spec_in_upto_range(c, self.limit as int) ==> spec_lookup(
                        final(votes).spec_votes(),
                        c,
                    ) == spec_lookup(old(votes).spec_votes(), c))
            }),
    {
        let n = current_costs.len();
        let mut matched: u64 = 0;
        let mut i: usize = 0;
        while i < n
            invariant
                0 <= i <= n,
                n == current_costs@.len(),
                matched == count_upto_matched(
                    current_costs@.subrange(0, i as int),
                    self.limit as int,
                ),
                matched <= i,
            decreases n - i,
        {
            proof {
                assert(current_costs@.subrange(0, i + 1).drop_last() =~= current_costs@.subrange(
                    0,
                    i as int,
                ));
            }
            let c = current_costs.index(i);
            if c.is_coin_only() {
                let coin = match c.get_coin() {
                    Some(v) => v,
                    None => -1,
                };
                if coin <= self.limit {
                    matched += 1;
                }
            }
            i += 1;
        }
        proof {
            assert(current_costs@.subrange(0, n as int) =~= current_costs@);
        }
        let enough = {
            let req = self.helper.matches_required;
            req <= 0 || matched >= req as u64
        };
        let chosen: i64 = if enough {
            self.helper.met_weight as i64
        } else {
            self.helper.unmet_weight as i64
        };
        let weight = scaled_div(
            chosen,
            if self.limit <= 0 {
                0
            } else {
                self.limit as u64
            },
        );
        proof {
            assert(weight as int == spec_upto_weight(*self, current_costs@));
        }
        // one vote for each coin-only cost from 1 up to the limit
        let mut v: i16 = 1;
        while v <= self.limit as i16
            invariant
                1 <= v <= 128,
                self.limit as i16 <= 127,
                weight as int == spec_upto_weight(*self, current_costs@),
                votes.spec_available() == old(votes).spec_available(),
                forall|c: Cost|
                    !old(votes).spec_available().contains(c) ==> spec_lookup(
                        votes.spec_votes(),
                        c,
                    ) == spec_lookup(old(votes).spec_votes(), c),
                forall|vv: int|
                    1 <= vv < v as int && old(votes).spec_available().contains(spec_coin_cost(vv))
                        ==> spec_lookup(votes.spec_votes(), spec_coin_cost(vv)) == Some(
                        spec_sat_add(
                            old(votes).spec_tally(spec_coin_cost(vv)),
                            weight as int,
                        ),
                    ),
                forall|vv: int|
                    v as int <= vv <= self.limit as int ==> spec_lookup(
                        votes.spec_votes(),
                        spec_coin_cost(vv),
                    ) == spec_lookup(old(votes).spec_votes(), spec_coin_cost(vv)),
                forall|c: Cost|
                    !spec_in_upto_range(c, self.limit as int) ==> spec_lookup(
                        votes.spec_votes(),
                        c,
                    ) == spec_lookup(old(votes).spec_votes(), c),
            decreases self.limit as i16 + 1 - v,
        {
            let c = Cost::new_s(v as i8);
            let ghost pre = *votes;
            votes.add_vote(&c, weight);
            proof {
                assert(c == spec_coin_cost(v as int));
                assert forall|vv: int|
                    1 <= vv < v as int + 1 && old(votes).spec_available().contains(
                        spec_coin_cost(vv),
                    ) implies spec_lookup(votes.spec_votes(), spec_coin_cost(vv)) == Some(
                    spec_sat_add(old(votes).spec_tally(spec_coin_cost(vv)), weight as int),
                ) by {
                    if vv < v as int {
                        assert(spec_coin_cost(vv) != c);
                    } else {
                        assert(spec_lookup(pre.spec_votes(), c) == spec_lookup(
                            old(votes).spec_votes(),
                            c,
                        ));
                    }
                }
                assert forall|vv: int|
                    v as int + 1 <= vv <= self.limit as int implies spec_lookup(
                    votes.spec_votes(),
                    spec_coin_cost(vv),
                ) == spec_lookup(old(votes).spec_votes(), spec_coin_cost(vv)) by {
                    assert(spec_coin_cost(vv) != c);
                }
                assert forall|d: Cost|
                    !spec_in_upto_range(d, self.limit as int) implies spec_lookup(
                    votes.spec_votes(),
                    d,
                ) == spec_lookup(old(votes).spec_votes(), d) by {
                    assert(spec_in_upto_range(c, self.limit as int));
                    assert(d != c);
                }
            }
            v += 1;
        }
        !enough
    }
}

/// The vote an in-set target casts on each member of its set.
pub open spec fn spec_inset_weight(t: CostInSet, current: Seq<Cost>) -> int {
    spec_scaled_div(
        if count_inset_matched(current, t.costs@) >= t.helper.matches_required as int {
            t.helper.met_weight as int
        } else {
            t.helper.unmet_weight as int
        },
        t.costs@.len() as int,
    )
}

impl CostInSet {
    fn add_votes(&self, current_costs: &CostSet, votes: &mut CostVotes) -> (r: bool)
        ensures
            r == (count_inset_matched(current_costs@, self.costs@)
                < self.helper.matches_required as int),
            final(votes).spec_available() == old(votes).spec_available(),
            forall|c: Cost|
                !old(votes).spec_available().contains(c) ==> spec_lookup(
                    final(votes).spec_votes(),
                    c,
                ) == spec_lookup(old(votes).spec_votes(), c),
            ({
                let w = spec_inset_weight(*self, current_costs@);
                &&& (forall|c: Cost|
                    old(votes).spec_available().contains(c) ==> spec_lookup(
                        final(votes).spec_votes(),
                        c,
                    ) == (if seq_cost_count(self.costs@, c) == 0 {
                        spec_lookup(old(votes).spec_votes(), c)
                    } else {
                        Some(
                            spec_sat_add_n(
                                old(votes).spec_tally(c),
                                w,
                                seq_cost_count(self.costs@, c),
                            ),
                        )
                    }))
                &&& (forall|c: Cost|
                    seq_cost_count(self.costs@, c) == 0 ==> spec_lookup(
                        final(votes).spec_votes(),
                        c,
                    ) == spec_lookup(old(votes).spec_votes(), c))
            }),
    {
        let n = current_costs.len();
        let mut matched: u64 = 0;
        let mut i: usize = 0;
        while i < n
            invariant
                0 <= i <= n,
                n == current_costs@.len(),
                matched == count_inset_matched(current_costs@.subrange(0, i as int), self.costs@),
                matched <= i,
            decreases n - i,
        {
            proof {
                assert(current_costs@.subrange(0, i + 1).drop_last() =~= current_costs@.subrange(
                    0,
                    i as int,
                ));
            }
            let c = current_costs.index(i);
            if self.costs.contains(&c) {
                matched += 1;
            }
            i += 1;
        }
        proof {
            assert(current_costs@.subrange(0, n as int) =~= current_costs@);
        }
        let enough = {
            let req = self.helper.matches_required;
            req <= 0 || matched >= req as u64
        };
        let chosen: i64 = if enough {
            self.helper.met_weight as i64
        } else {
            self.helper.unmet_weight as i64
        };
        let weight = scaled_div(chosen, self.costs.len() as u64);
        proof {
            assert(weight as int == spec_inset_weight(*self, current_costs@));
        }
        let m = self.costs.len();
        let mut j: usize = 0;
        while j < m
            invariant
                0 <= j <= m,
                m == self.costs@.len(),
                weight as int == spec_inset_weight(*self, current_costs@),
                votes.spec_available() == old(votes).spec_available(),
                forall|c: Cost|
                    !old(votes).spec_available().contains(c) ==> spec_lookup(
                        votes.spec_votes(),
                        c,
                    ) == spec_lookup(old(votes).spec_votes(), c),
                forall|c: Cost|
                    old(votes).spec_available().contains(c) ==> spec_lookup(
                        votes.spec_votes(),
                        c,
                    ) == (if seq_cost_count(self.costs@.subrange(0, j as int), c) == 0 {
                        spec_lookup(old(votes).spec_votes(), c)
                    } else {
                        Some(
                            spec_sat_add_n(
                                old(votes).spec_tally(c),
                                weight as int,
                                seq_cost_count(self.costs@.subrange(0, j as int), c),
                            ),
                        )
                    }),
                forall|c: Cost|
                    seq_cost_count(self.costs@.subrange(0, j as int), c) == 0 ==> spec_lookup(
                        votes.spec_votes(),
                        c,
                    ) == spec_lookup(old(votes).spec_votes(), c),
            decreases m - j,
        {
            let c = self.costs.index(j);
            let ghost pre = *votes;
            let ghost prefix = self.costs@.subrange(0, j as int);
            votes.add_vote(&c, weight);
            proof {
                let next = self.costs@.subrange(0, j + 1);
                assert(next.drop_last() =~= prefix);
                assert(next.last() == c);
                assert forall|d: Cost|
                    old(votes).spec_available().contains(d) implies spec_lookup(
                    votes.spec_votes(),
                    d,
                ) == (if seq_cost_count(next, d) == 0 {
                    spec_lookup(old(votes).spec_votes(), d)
                } else {
                    Some(
                        spec_sat_add_n(
                            old(votes).spec_tally(d),
                            weight as int,
                            seq_cost_count(next, d),
                        ),
                    )
                }) by {
                    lemma_seq_cost_count_nonneg(prefix, d);
                    if d == c {
                        assert(seq_cost_count(next, d) == seq_cost_count(prefix, d) + 1);
                        let t = old(votes).spec_tally(d);
                        let cnt = seq_cost_count(prefix, d);
                        assert(spec_sat_add_n(t, weight as int, cnt + 1) == spec_sat_add(
                            spec_sat_add_n(t, weight as int, cnt),
                            weight as int,
                        ));
                        if cnt == 0 {
                            assert(spec_lookup(pre.spec_votes(), d) == spec_lookup(
                                old(votes).spec_votes(),
                                d,
                            ));
                            assert(pre.spec_tally(d) == t);
                            assert(spec_sat_add_n(t, weight as int, 0) == t);
                        } else {
                            assert(spec_lookup(pre.spec_votes(), d) == Some(
                                spec_sat_add_n(t, weight as int, cnt),
                            ));
                            assert(pre.spec_tally(d) == spec_sat_add_n(t, weight as int, cnt));
                        }
                    } else {
                        assert(seq_cost_count(next, d) == seq_cost_count(prefix, d));
                        assert(spec_lookup(votes.spec_votes(), d) == spec_lookup(
                            pre.spec_votes(),
                            d,
                        ));
                    }
                }
                assert forall|d: Cost|
                    seq_cost_count(next, d) == 0 implies spec_lookup(votes.spec_votes(), d)
                    == spec_lookup(old(votes).spec_votes(), d) by {
                    lemma_seq_cost_count_nonneg(prefix, c);
                    assert(seq_cost_count(next, c) >= 1);
                    assert(d != c);
                    assert(seq_cost_count(prefix, d) == 0);
                }
            }
            j += 1;
        }
        proof {
            assert(self.costs@.subrange(0, m as int) =~= self.costs@);
        }
        !enough
    }
}


/// The coin-only costs from `lo` up to `hi`, in ascending order.
pub open spec fn spec_range_costs(lo: int, hi: int) -> Seq<Cost> {
    Seq::new(
        if hi < lo {
            0
        } else {
            (hi - lo + 1) as nat
        },
        |i: int| Cost { coin: Some((lo + i) as i8), potion: None, debt: None },
    )
}

fn range_costs(lo: i8, hi: i8) -> (r: CostSet)
    ensures
        r@ == spec_range_costs(lo as int, hi as int),
{
    let mut cs = CostSet::new();
    let mut v: i16 = lo as i16;
    proof {
        assert(cs@ =~= spec_range_costs(lo as int, lo as int - 1));
    }
    while v <= hi as i16
        invariant
            lo as i16 <= v <= hi as i16 + 1 || v == lo as i16,
            -128 <= v <= 128,
            cs@ == spec_range_costs(lo as int, v - 1),
        decreases hi as i16 + 1 - v,
    {
        let c = Cost::new_s(v as i8);
        proof {
            assert(forall|j: int|
                0 <= j < cs@.len() ==> (#[trigger] cs@[j]).coin == Some((lo + j) as i8));
            assert(!cs@.contains(c));
        }
        cs.insert(c);
        proof {
            assert(cs@ =~= spec_range_costs(lo as int, v as int));
        }
        v = v + 1;
    }
    proof {
        if hi < lo {
            assert(cs@ =~= spec_range_costs(lo as int, hi as int));
        }
    }
    cs
}

/// `str::parse::<i8>` at the specification level.
pub open spec fn spec_parse_i8(s: Seq<char>) -> Option<int> {
    match crate::strutil::spec_parse_int(s) {
        Some(n) => if -128 <= n <= 127 {
            Some(n)
        } else {
            None
        },
        None => None,
    }
}

/// `str::parse::<u8>` at the specification level.
pub open spec fn spec_parse_u8(s: Seq<char>) -> Option<int> {
    if s.len() > 0 && s[0] != '-' {
        match crate::strutil::spec_parse_int(s) {
            Some(n) => if 0 <= n <= 255 {
                Some(n)
            } else {
                None
            },
            None => None,
        }
    } else {
        None
    }
}

/// First occurrence of `c` in `s`, or `-1`.
pub open spec fn spec_find_char(s: Seq<char>, c: char) -> int
    decreases s.len(),
{
    if s.len() == 0 {
        -1
    } else if s[0] == c {
        0
    } else {
        let r = spec_find_char(s.skip(1), c);
        if r < 0 {
            -1
        } else {
            r + 1
        }
    }
}

pub proof fn lemma_find_char_pub(s: Seq<char>, c: char)
    ensures
        spec_find_char(s, c) == -1 ==> forall|j: int| 0 <= j < s.len() ==> s[j] != c,
        spec_find_char(s, c) >= 0 ==> {
            let i = spec_find_char(s, c);
            &&& i < s.len()
            &&& s[i] == c
            &&& forall|j: int| 0 <= j < i ==> s[j] != c
        },
{
    lemma_find_char(s, c);
}

proof fn lemma_find_char(s: Seq<char>, c: char)
    ensures
        spec_find_char(s, c) == -1 ==> forall|j: int| 0 <= j < s.len() ==> s[j] != c,
        spec_find_char(s, c) >= 0 ==> {
            let i = spec_find_char(s, c);
            &&& i < s.len()
            &&& s[i] == c
            &&& forall|j: int| 0 <= j < i ==> s[j] != c
        },
    decreases s.len(),
{
    if s.len() > 0 && s[0] != c {
        lemma_find_char(s.skip(1), c);
        let rs = spec_find_char(s.skip(1), c);
        if rs == -1 {
            assert forall|j: int| 0 <= j < s.len() implies s[j] != c by {
                if j >= 1 {
                    assert(s.skip(1)[j - 1] == s[j]);
                }
            }
        } else {
            assert(s.skip(1)[rs] == s[rs + 1]);
            assert forall|j: int| 0 <= j < rs + 1 implies s[j] != c by {
                if j >= 1 {
                    assert(s.skip(1)[j - 1] == s[j]);
                }
            }
        }
    }
}

pub fn find_char(s: &str, c: char) -> (r: Option<usize>)
    ensures
        match r {
            Some(i) => i as int == spec_find_char(s@, c),
            None => spec_find_char(s@, c) == -1,
        },
{
    let len = s.unicode_len();
    let mut i: usize = 0;
    proof {
        lemma_find_char(s@, c);
    }
    while i < len
        invariant
            0 <= i <= len,
            len == s@.len(),
            forall|j: int| 0 <= j < i ==> s@[j] != c,
        decreases len - i,
    {
        if s.get_char(i) == c {
            proof {
                lemma_find_char(s@, c);
                if spec_find_char(s@, c) == -1 {
                    assert(s@[i as int] != c);
                }
            }
            return Some(i);
        }
        i += 1;
    }
    proof {
        lemma_find_char(s@, c);
        if spec_find_char(s@, c) >= 0 {
            assert(s@[spec_find_char(s@, c)] == c);
        }
    }
    None
}

/// The target, if any, denoted by a `cost...` interaction string:
/// `cost_in(L.U)` is an in-set target over that coin range; otherwise
/// the string is `cost`, a comparator among `<=`, `=`, `>=`, and a signed
/// bound from 1 to 30. A signed bound makes the target relative (strict
/// for `=`), an unsigned bound an up-to (`<=`) or in-set (`>=`) target.
pub open spec fn spec_decode(s: Seq<char>) -> Option<TargetShape> {
    if !crate::strutil::spec_starts_with(s, "cost"@) {
        None
    } else {
        let rest = s.skip(4);
        if crate::strutil::spec_starts_with(rest, "_in"@) {
            let range = rest.skip(3);
            if range.len() >= 2 && range[0] == '(' && range.last() == ')' {
                let inner = range.subrange(1, range.len() - 1);
                let dot = spec_find_char(inner, '.');
                if dot < 0 {
                    None
                } else {
                    let lows = inner.subrange(0, dot);
                    let ups = inner.subrange(dot + 1, inner.len() as int);
                    match (spec_parse_u8(lows), spec_parse_u8(ups)) {
                        (Some(lo), Some(hi)) => if lo < 1 || lo > 127 || hi < 1 || hi > 127 {
                            None
                        } else {
                            let cs = spec_range_costs(lo, hi);
                            Some(
                                TargetShape::InSet {
                                    matches_required: 3,
                                    unmet_weight: 3,
                                    met_weight: 1,
                                    rep: spec_rep_inset(cs),
                                    costs: cs,
                                },
                            )
                        },
                        _ => None,
                    }
                }
            } else {
                None
            }
        } else {
            let eq = spec_find_char(rest, '=');
            if eq < 0 {
                None
            } else {
                let comp = rest.subrange(0, eq);
                let sval = rest.subrange(eq + 1, rest.len() as int);
                match spec_parse_i8(sval) {
                    None => None,
                    Some(v) => {
                        if v == 0 || v > 30 || v < -30 {
                            None
                        } else if comp == "<"@ {
                            if sval[0] == '+' || sval[0] == '-' {
                                Some(spec_relative_shape(v, false))
                            } else {
                                Some(
                                    TargetShape::UpTo {
                                        matches_required: 3,
                                        unmet_weight: 3,
                                        met_weight: 1,
                                        rep: spec_rep_upto(v),
                                        limit: v,
                                    },
                                )
                            }
                        } else if comp == Seq::<char>::empty() {
                            if sval[0] == '+' || sval[0] == '-' {
                                Some(spec_relative_shape(v, true))
                            } else {
                                None
                            }
                        } else if comp == ">"@ {
                            if v > 0 {
                                let cs = spec_range_costs(v, crate::MAXCOINCOST as int);
                                Some(
                                    TargetShape::InSet {
                                        matches_required: 3,
                                        unmet_weight: 3,
                                        met_weight: 1,
                                        rep: spec_rep_inset(cs),
                                        costs: cs,
                                    },
                                )
                            } else {
                                None
                            }
                        } else {
                            None
                        }
                    },
                }
            }
        }
    }
}

pub open spec fn spec_relative_shape(delta: int, strict: bool) -> TargetShape {
    TargetShape::Relative {
        matches_required: 6,
        unmet_weight: 3,
        met_weight: 1,
        rep: spec_rep_relative(strict, delta),
        delta: delta,
        strict: strict,
    }
}

/// Decode a `cost...` interaction string into a cost target, or nothing
/// if the string is not one of the recognised shapes.
#[verifier::rlimit(60)]
pub fn decode_cost(s: &str) -> (r: Option<CostTarget>)
    ensures
        match r {
            None => spec_decode(s@) is None,
            Some(t) => spec_decode(s@) == Some(t@),
        },
{
    proof {
        reveal_strlit("cost");
        reveal_strlit("_in");
        reveal_strlit("<");
        reveal_strlit(">");
    }
    let len = s.unicode_len();
    if !starts_with(s, "cost") {
        return None;
    }
    let rest = s.substring_char(4, len);
    proof {
        assert(rest@ =~= s@.skip(4));
    }
    let rlen = rest.unicode_len();
    if starts_with(rest, "_in") {
        let range = rest.substring_char(3, rlen);
        proof {
            assert(range@ =~= rest@.skip(3));
        }
        let range_len = range.unicode_len();
        if range_len < 2 || range.get_char(0) != '(' || range.get_char(range_len - 1) != ')' {
            return None;
        }
        let inner = range.substring_char(1, range_len - 1);
        proof {
            assert(inner@ =~= range@.subrange(1, range@.len() - 1));
        }
        let inner_len = inner.unicode_len();
        let dot = match find_char(inner, '.') {
            Some(d) => d,
            None => {
                return None;
            },
        };
        proof {
            lemma_find_char(inner@, '.');
        }
        let lows = inner.substring_char(0, dot);
        let ups = inner.substring_char(dot + 1, inner_len);
        proof {
            assert(lows@ =~= inner@.subrange(0, dot as int));
            assert(ups@ =~= inner@.subrange(dot + 1, inner@.len() as int));
        }
        let lo = match crate::strutil::parse_u8(lows) {
            Some(v) => v,
            None => {
                return None;
            },
        };
        let hi = match crate::strutil::parse_u8(ups) {
            Some(v) => v,
            None => {
                return None;
            },
        };
        // the bounds must name real coin costs, from one upward
        if lo < 1 || lo > 127 || hi < 1 || hi > 127 {
            return None;
        }
        let cs = range_costs(lo as i8, hi as i8);
        let t = CostInSet::new(3, 3, 1, cs);
        proof {
            assert(spec_decode(s@) == Some(t@));
        }
        Some(CostTarget::InSet(t))
    } else {
        let eq = match find_char(rest, '=') {
            Some(d) => d,
            None => {
                return None;
            },
        };
        proof {
            lemma_find_char(rest@, '=');
        }
        let sval = rest.substring_char(eq + 1, rlen);
        proof {
            assert(sval@ =~= rest@.subrange(eq + 1, rest@.len() as int));
        }
        let v = match crate::strutil::parse_i8(sval) {
            Some(v) => v,
            None => {
                return None;
            },
        };
        if v == 0 || v > 30 || v < -30 {
            return None;
        }
        proof {
            assert(sval@.len() > 0);
        }
        let ghost comp = rest@.subrange(0, eq as int);
        let sign = sval.get_char(0);
        let signed = sign == '+' || sign == '-';
        if eq == 1 && rest.get_char(0) == '<' {
            proof {
                assert(comp =~= "<"@);
            }
            if signed {
                let t = CostRelative::new(6, 3, 1, v, false);
                proof {
                    assert(spec_decode(s@) == Some(t@));
                }
                Some(CostTarget::Relative(t))
            } else {
                let t = CostUpto::new(3, 3, 1, v);
                proof {
                    assert(spec_decode(s@) == Some(t@));
                }
                Some(CostTarget::UpTo(t))
            }
        } else if eq == 0 {
            proof {
                assert(comp =~= Seq::<char>::empty());
            }
            if signed {
                let t = CostRelative::new(6, 3, 1, v, true);
                proof {
                    reveal_strlit("<");
                    reveal_strlit(">");
                    assert(comp != "<"@);
                    assert(comp == Seq::<char>::empty());
                    assert(sval@[0] == '+' || sval@[0] == '-');
                    assert(spec_decode(s@) == Some(spec_relative_shape(v as int, true)));
                    assert(t@ == spec_relative_shape(v as int, true));
                    assert(spec_decode(s@) == Some(t@));
                }
                Some(CostTarget::Relative(t))
            } else {
                None
            }
        } else if eq == 1 && rest.get_char(0) == '>' {
            proof {
                reveal_strlit("<");
                reveal_strlit(">");
                assert(comp =~= ">"@);
                assert("<"@.len() == 1);
                assert("<"@[0] == '<');
                assert(">"@[0] == '>');
                assert(comp != "<"@ && comp != Seq::<char>::empty());
            }
            if v > 0 {
                let cs = range_costs(v, crate::MAXCOINCOST);
                let t = CostInSet::new(3, 3, 1, cs);
                proof {
                    assert(spec_decode(s@) == Some(t@));
                }
                Some(CostTarget::InSet(t))
            } else {
                None
            }
        } else {
            proof {
                reveal_strlit("<");
                reveal_strlit(">");
                assert(comp.len() == eq as int);
                if eq == 1 {
                    assert(comp =~= seq![rest@[0]]);
                }
                assert("<"@.len() == 1);
                assert("<"@[0] == '<');
                assert(">"@.len() == 1);
                assert(">"@[0] == '>');
                assert(comp != "<"@);
                assert(comp != Seq::<char>::empty());
                assert(comp != ">"@);
                assert(spec_decode(s@) is None);
            }
            None
        }
    }
}

} // verus!
