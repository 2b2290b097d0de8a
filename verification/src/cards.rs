//! Cards: the immutable records parsed from the catalog file.

use vstd::prelude::*;

use crate::costs::{
    decode_cost, spec_decode, spec_parse_i8, Cost, CostTarget, TargetShape,
};
use crate::strutil::{spec_split, spec_starts_with, starts_with};

verus! {

/// Membership of a string, by contents, in a list of strings.
pub open spec fn has_str(v: Seq<String>, s: Seq<char>) -> bool {
    exists|i: int| 0 <= i < v.len() && v[i]@ == s
}

/// Membership of a target, by shape, in a list of targets.
pub open spec fn has_target(v: Seq<CostTarget>, t: TargetShape) -> bool {
    exists|i: int| 0 <= i < v.len() && v[i]@ == t
}

/// A structured string is balanced: once it opens a parenthesis it must
/// close the whole string with one.
pub open spec fn spec_paren_ok(s: Seq<char>) -> bool {
    s.contains('(') ==> s.len() > 0 && s.last() == ')'
}

pub fn contains_str(v: &Vec<String>, s: &str) -> (r: bool)
    ensures
        r == has_str(v@, s@),
{
    let n = v.len();
    let mut i: usize = 0;
    while i < n
        invariant
            0 <= i <= n,
            n == v@.len(),
            forall|j: int| 0 <= j < i ==> v@[j]@ != s@,
        decreases n - i,
    {
        if crate::strutil::str_eq(v[i].as_str(), s) {
            return true;
        }
        i += 1;
    }
    false
}

/// One card of the catalog. The split fields keep the order the catalog
/// file gave them.
pub struct Card {
    pub name: String,
    pub pile: String,
    pub card_group: String,
    pub supply: bool,
    pub kingdom: bool,
    pub types: Vec<String>,
    pub cost: Cost,
    pub keywords: Vec<String>,
    pub kw_interactions: Vec<String>,
    pub other_interactions: Vec<String>,
    pub cost_targets: Vec<CostTarget>,
}

impl Card {
    /// Every structured interaction string is balanced, so scans that
    /// strip `name(...)` forms cannot fall off the end.
    pub open spec fn wf(self) -> bool {
        forall|i: int|
            0 <= i < self.other_interactions@.len() ==> spec_paren_ok(
                #[trigger] self.other_interactions@[i]@,
            )
    }

    pub fn new(
        card_name: &str,
        card_pile: &str,
        group_name: &str,
        card_in_supply: bool,
        card_is_kingdom: bool,
        card_types: Vec<String>,
        c: &Cost,
        card_keywords: Vec<String>,
        interacts_keywords: Vec<String>,
        interacts_other: Vec<String>,
        targets: Vec<CostTarget>,
    ) -> (r: Card)
        requires
            forall|i: int|
                0 <= i < interacts_other@.len() ==> spec_paren_ok(
                    #[trigger] interacts_other@[i]@,
                ),
        ensures
            r.wf(),
            r.name@ == card_name@,
            r.pile@ == card_pile@,
            r.card_group@ == group_name@,
            r.supply == card_in_supply,
            r.kingdom == card_is_kingdom,
            r.types == card_types,
            r.cost == *c,
            r.keywords == card_keywords,
            r.kw_interactions == interacts_keywords,
            r.other_interactions == interacts_other,
            r.cost_targets == targets,
    {
        Card {
            name: card_name.to_owned(),
            pile: card_pile.to_owned(),
            card_group: group_name.to_owned(),
            supply: card_in_supply,
            kingdom: card_is_kingdom,
            types: card_types,
            cost: *c,
            keywords: card_keywords,
            kw_interactions: interacts_keywords,
            other_interactions: interacts_other,
            cost_targets: targets,
        }
    }

    pub fn get_name(&self) -> (r: &str)
        ensures
            r@ == self.name@,
    {
        self.name.as_str()
    }

    pub fn get_card_group(&self) -> (r: &str)
        ensures
            r@ == self.card_group@,
    {
        self.card_group.as_str()
    }

    pub fn get_pile_name(&self) -> (r: &str)
        ensures
            r@ == self.pile@,
    {
        self.pile.as_str()
    }

    pub fn get_supply(&self) -> (r: bool)
        ensures
            r == self.supply,
    {
        self.supply
    }

    pub fn get_kingdom(&self) -> (r: bool)
        ensures
            r == self.kingdom,
    {
        self.kingdom
    }

    pub fn get_types(&self) -> (r: &Vec<String>)
        ensures
            r == &self.types,
    {
        &self.types
    }

    pub fn get_cost(&self) -> (r: &Cost)
        ensures
            r == &self.cost,
    {
        &self.cost
    }

    pub fn get_keywords(&self) -> (r: &Vec<String>)
        ensures
            r == &self.keywords,
    {
        &self.keywords
    }

    pub fn get_kw_interactions(&self) -> (r: &Vec<String>)
        ensures
            r == &self.kw_interactions,
    {
        &self.kw_interactions
    }

    pub fn get_other_interactions(&self) -> (r: &Vec<String>)
        ensures
            r == &self.other_interactions,
    {
        &self.other_interactions
    }
}

/// Cards are listed in plain vectors.
pub type Cards = Vec<Card>;

/// A split column, with the empty column giving no entries at all.
pub open spec fn spec_split_ne(s: Seq<char>, sep: char) -> Seq<Seq<char>> {
    if s.len() == 0 {
        Seq::<Seq<char>>::empty()
    } else {
        spec_split(s, sep)
    }
}

/// The original scan: a structured interaction must be balanced, and a
/// `cost...` interaction must decode.
pub open spec fn spec_interactions_ok(inters: Seq<Seq<char>>) -> bool {
    forall|i: int|
        0 <= i < inters.len() ==> {
            &&& spec_paren_ok(#[trigger] inters[i])
            &&& (spec_starts_with(inters[i], "cost"@) ==> spec_decode(inters[i]) is Some)
        }
}

/// The targets the interactions describe, in order.
pub open spec fn spec_targets_of(inters: Seq<Seq<char>>) -> Seq<TargetShape>
    decreases inters.len(),
{
    if inters.len() == 0 {
        Seq::<TargetShape>::empty()
    } else {
        spec_targets_of(inters.drop_last()) + if spec_starts_with(inters.last(), "cost"@) {
            match spec_decode(inters.last()) {
                Some(t) => seq![t],
                None => Seq::<TargetShape>::empty(),
            }
        } else {
            Seq::<TargetShape>::empty()
        }
    }
}

/// The number of columns a catalog line must have.
pub const END_COL: usize = 14;

/// Build one card from the split columns of a catalog line, or nothing
/// when the line is too short or an interaction is malformed.
pub fn make_card(fields: &Vec<String>) -> (r: Option<Card>)
    ensures
        r is Some <==> (fields@.len() >= END_COL as int && spec_interactions_ok(
            spec_split_ne(fields@[13]@, ';'),
        )),
        match r {
            Some(c) => {
                &&& c.wf()
                &&& c.name@ == fields@[0]@
                &&& c.pile@ == fields@[1]@
                &&& c.card_group@ == fields@[2]@
                &&& c.supply == (fields@[3]@ == "Y"@ || fields@[3]@ == "y"@)
                &&& c.kingdom == (fields@[4]@ == "Y"@ || fields@[4]@ == "y"@)
                &&& c.types.deep_view() == spec_split_ne(fields@[5]@, ';')
                &&& c.cost.coin == match spec_parse_i8(fields@[6]@) {
                    Some(v) => Some(v as i8),
                    None => None::<i8>,
                }
                &&& c.cost.debt == match spec_parse_i8(fields@[8]@) {
                    Some(v) => Some(v as i8),
                    None => None::<i8>,
                }
                &&& c.cost.potion == match spec_parse_i8(fields@[9]@) {
                    Some(v) => Some(v as i8),
                    None => None::<i8>,
                }
                &&& c.keywords.deep_view() == spec_split_ne(fields@[11]@, ';')
                &&& c.kw_interactions.deep_view() == spec_split_ne(fields@[12]@, ';')
                &&& c.other_interactions.deep_view() == spec_split_ne(fields@[13]@, ';')
                &&& c.cost_targets.deep_view() == spec_targets_of(spec_split_ne(fields@[13]@, ';'))
            },
            None => true,
        },
{
    if fields.len() < END_COL {
        return None;
    }
    let coin_cost = crate::strutil::parse_i8(fields[6].as_str());
    let potion_cost = crate::strutil::parse_i8(fields[9].as_str());
    let debt_cost = crate::strutil::parse_i8(fields[8].as_str());
    let c = Cost::new(coin_cost, potion_cost, debt_cost);

    let in_supply = crate::bool_value(fields[3].as_str());
    let is_kingdom = crate::bool_value(fields[4].as_str());

    let types = crate::strutil::no_empty_split(&fields[5], ';');
    let keywords = crate::strutil::no_empty_split(&fields[11], ';');
    let interacts_kw = crate::strutil::no_empty_split(&fields[12], ';');
    let interacts_other = crate::strutil::no_empty_split(&fields[13], ';');
    let mut targets: Vec<CostTarget> = Vec::new();

    let n = interacts_other.len();
    let ghost inters = interacts_other.deep_view();
    let mut i: usize = 0;
    while i < n
        invariant
            0 <= i <= n,
            n == interacts_other@.len(),
            fields@.len() >= END_COL as int,
            interacts_other.deep_view() == inters,
            inters == spec_split_ne(fields@[13]@, ';'),
            forall|j: int|
                0 <= j < i ==> {
                    &&& spec_paren_ok(#[trigger] inters[j])
                    &&& (spec_starts_with(inters[j], "cost"@) ==> spec_decode(inters[j]) is Some)
                },
            targets.deep_view() == spec_targets_of(inters.subrange(0, i as int)),
        decreases n - i,
    {
        let s = &interacts_other[i];
        proof {
            assert(inters[i as int] == s@);
            assert(inters.subrange(0, i + 1).drop_last() =~~= inters.subrange(0, i as int));
        }
        let slen = s.as_str().unicode_len();
        let has_open = crate::costs::find_char(s.as_str(), '(').is_some();
        proof {
            crate::costs::lemma_find_char_pub(s@, '(');
            if crate::costs::spec_find_char(s@, '(') >= 0 {
                assert(s@.contains('('));
            } else {
                if s@.contains('(') {
                    let j = choose|j: int| 0 <= j < s@.len() && s@[j] == '(';
                    assert(s@[j] == '(');
                }
            }
        }
        let balanced = if has_open {
            slen > 0 && s.as_str().get_char(slen - 1) == ')'
        } else {
            true
        };
        if !balanced {
            return None;
        }
        proof {
            assert(spec_paren_ok(inters[i as int]));
        }
        if starts_with(s.as_str(), "cost") {
            match decode_cost(s.as_str()) {
                None => {
                    return None;
                },
                Some(t) => {
                    let ghost prev = targets.deep_view();
                    targets.push(t);
                    proof {
                        assert(targets.deep_view() =~~= prev.push(t@));
                        assert(targets.deep_view() =~~= spec_targets_of(inters.subrange(0, i + 1)));
                    }
                },
            }
        } else {
            proof {
                assert(targets.deep_view() =~~= spec_targets_of(inters.subrange(0, i + 1)));
            }
        }
        i += 1;
    }
    proof {
        assert(inters.subrange(0, n as int) =~~= inters);
        assert forall|j: int| 0 <= j < interacts_other@.len() implies spec_paren_ok(
            #[trigger] interacts_other@[j]@,
        ) by {
            assert(inters[j] == interacts_other@[j]@);
        }
    }
    let card = Card::new(
        fields[0].as_str(),
        fields[1].as_str(),
        fields[2].as_str(),
        in_supply,
        is_kingdom,
        types,
        &c,
        keywords,
        interacts_kw,
        interacts_other,
        targets,
    );
    Some(card)
}


/// Parse every catalog line into piles keyed by pile name, drop the
/// piles of excluded cards, and fail on a malformed line or an exclusion
/// that names no card.
/// A catalog line the loader passes over: one starting with a comma
/// carries no card name.
pub open spec fn spec_card_line_skipped(s: Seq<char>) -> bool {
    s.len() > 0 && s[0] == ','
}

/// A data line `make_card` rejects: too few columns, or a malformed
/// structured interaction.
pub open spec fn spec_card_line_bad(s: Seq<char>) -> bool {
    let fields = crate::strutil::spec_split(s, ',');
    !(fields.len() >= END_COL as int && spec_interactions_ok(spec_split_ne(fields[13], ';')))
}

/// Some data line before `upto` fails to parse.
pub open spec fn spec_bad_in_prefix(lines: Seq<String>, upto: int) -> bool {
    exists|i2: int|
        1 <= i2 < upto && !spec_card_line_skipped((#[trigger] lines[i2])@) && spec_card_line_bad(
            lines[i2]@,
        )
}

/// Some data line before `upto` parses to a card of this name.
pub open spec fn spec_name_in_prefix(lines: Seq<String>, upto: int, name: Seq<char>) -> bool {
    exists|i2: int|
        {
            let s = (#[trigger] lines[i2])@;
            &&& 1 <= i2 < upto
            &&& !spec_card_line_skipped(s)
            &&& !spec_card_line_bad(s)
            &&& crate::strutil::spec_split(s, ',')[0] == name
        }
}

/// Some data line of the file parses to a card of this name.
pub open spec fn spec_file_has_card(lines: Seq<String>, name: Seq<char>) -> bool {
    spec_name_in_prefix(lines, lines.len() as int, name)
}

/// Taking one more line into the prefix adds exactly that line's
/// contribution.
proof fn lemma_prefix_step(lines: Seq<String>, k: int)
    requires
        0 <= k < lines.len(),
    ensures
        spec_bad_in_prefix(lines, k + 1) == (spec_bad_in_prefix(lines, k) || (k >= 1
            && !spec_card_line_skipped(lines[k]@) && spec_card_line_bad(lines[k]@))),
        forall|nm: Seq<char>|
            #[trigger] spec_name_in_prefix(lines, k + 1, nm) == (spec_name_in_prefix(lines, k, nm)
                || (k >= 1 && !spec_card_line_skipped(lines[k]@) && !spec_card_line_bad(lines[k]@)
                && crate::strutil::spec_split(lines[k]@, ',')[0] == nm)),
{
    if spec_bad_in_prefix(lines, k + 1) {
        let i2 = choose|i2: int|
            1 <= i2 < k + 1 && !spec_card_line_skipped((#[trigger] lines[i2])@)
                && spec_card_line_bad(lines[i2]@);
        if i2 < k {
            assert(spec_bad_in_prefix(lines, k));
        }
    }
    if spec_bad_in_prefix(lines, k) {
        let i2 = choose|i2: int|
            1 <= i2 < k && !spec_card_line_skipped((#[trigger] lines[i2])@) && spec_card_line_bad(
                lines[i2]@,
            );
        assert(spec_bad_in_prefix(lines, k + 1));
    }
    if k >= 1 && !spec_card_line_skipped(lines[k]@) && spec_card_line_bad(lines[k]@) {
        assert(spec_bad_in_prefix(lines, k + 1));
    }
    assert forall|nm: Seq<char>|
        #[trigger] spec_name_in_prefix(lines, k + 1, nm) == (spec_name_in_prefix(lines, k, nm) || (
        k >= 1 && !spec_card_line_skipped(lines[k]@) && !spec_card_line_bad(lines[k]@)
            && crate::strutil::spec_split(lines[k]@, ',')[0] == nm)) by {
        if spec_name_in_prefix(lines, k + 1, nm) {
            let i2 = choose|i2: int|
                {
                    let s = (#[trigger] lines[i2])@;
                    &&& 1 <= i2 < k + 1
                    &&& !spec_card_line_skipped(s)
                    &&& !spec_card_line_bad(s)
                    &&& crate::strutil::spec_split(s, ',')[0] == nm
                };
            if i2 < k {
                assert(spec_name_in_prefix(lines, k, nm));
            }
        }
        if spec_name_in_prefix(lines, k, nm) {
            let i2 = choose|i2: int|
                {
                    let s = (#[trigger] lines[i2])@;
                    &&& 1 <= i2 < k
                    &&& !spec_card_line_skipped(s)
                    &&& !spec_card_line_bad(s)
                    &&& crate::strutil::spec_split(s, ',')[0] == nm
                };
            assert(spec_name_in_prefix(lines, k + 1, nm));
        }
        if k >= 1 && !spec_card_line_skipped(lines[k]@) && !spec_card_line_bad(lines[k]@)
            && crate::strutil::spec_split(lines[k]@, ',')[0] == nm {
            assert(spec_name_in_prefix(lines, k + 1, nm));
        }
    }
}

pub fn load_cards(card_lines: &Vec<String>, exclude_names: &Vec<String>) -> (r: Result<
    Vec<crate::piles::Pile>,
    String,
>)
    ensures
        r matches Ok(piles) ==> crate::collection::spec_piles_wf(piles@),
        (r is Err) == (spec_bad_in_prefix(card_lines@, card_lines@.len() as int) || (exists|e: int|
            0 <= e < exclude_names@.len() && !spec_file_has_card(
                card_lines@,
                (#[trigger] exclude_names@[e])@,
            ))),
{
    let mut card_piles: Vec<crate::piles::Pile> = Vec::new();
    let mut removed: Vec<bool> = Vec::new();
    let mut found_excluded: Vec<bool> = Vec::new();
    let mut fi: usize = 0;
    while fi < exclude_names.len()
        invariant
            found_excluded@.len() == fi,
            fi <= exclude_names@.len(),
            forall|e: int| 0 <= e < fi ==> !(#[trigger] found_excluded@[e]),
        decreases exclude_names@.len() - fi,
    {
        found_excluded.push(false);
        fi += 1;
    }
    let nlines = card_lines.len();
    let mut li: usize = 0;
    let mut error = String::new();
    let mut has_error = false;
    proof {
        assert(!spec_bad_in_prefix(card_lines@, 0));
        assert forall|e: int|
            0 <= e < exclude_names@.len() implies (#[trigger] found_excluded@[e])
            == spec_name_in_prefix(card_lines@, 0, exclude_names@[e]@) by {
            assert(!spec_name_in_prefix(card_lines@, 0, exclude_names@[e]@));
        }
    }
    while li < nlines
        invariant
            0 <= li <= nlines,
            nlines == card_lines@.len(),
            card_piles@.len() == removed@.len(),
            found_excluded@.len() == exclude_names@.len(),
            crate::collection::spec_piles_wf(card_piles@),
            has_error == spec_bad_in_prefix(card_lines@, li as int),
            forall|e: int|
                0 <= e < exclude_names@.len() ==> (#[trigger] found_excluded@[e])
                    == spec_name_in_prefix(card_lines@, li as int, exclude_names@[e]@),
        decreases nlines - li,
    {
        let ghost old_li = li as int;
        let line = &card_lines[li];
        li += 1;
        if li == 1 {
            // the header line
            proof {
                lemma_prefix_step(card_lines@, old_li);
            }
            continue ;
        }
        let llen = line.as_str().unicode_len();
        if llen > 0 && line.as_str().get_char(0) == ',' {
            proof {
                assert(spec_card_line_skipped(card_lines@[old_li]@));
                lemma_prefix_step(card_lines@, old_li);
            }
            continue ;
        }
        proof {
            assert(!spec_card_line_skipped(card_lines@[old_li]@));
        }
        let comp = crate::strutil::string_split(line.as_str(), ',');
        let c = match make_card(&comp) {
            None => {
                has_error = true;
                error = error.concat("Error parsing card line ");
                error = error.concat(crate::strutil::u64_to_string(li as u64).as_str());
                error = error.concat("\u{000a}");
                proof {
                    assert(comp.deep_view() == crate::strutil::spec_split(
                        card_lines@[old_li]@,
                        ',',
                    ));
                    assert(spec_card_line_bad(card_lines@[old_li]@)) by {
                        assert(comp@.len() == comp.deep_view().len());
                        if comp@.len() >= END_COL as int {
                            assert(comp@[13]@ == comp.deep_view()[13]);
                        }
                    }
                    lemma_prefix_step(card_lines@, old_li);
                }
                continue ;
            },
            Some(c) => c,
        };
        proof {
            assert(comp.deep_view() == crate::strutil::spec_split(card_lines@[old_li]@, ','));
            assert(!spec_card_line_bad(card_lines@[old_li]@)) by {
                assert(comp@.len() == comp.deep_view().len());
                assert(comp@[13]@ == comp.deep_view()[13]);
            }
            assert(c.name@ == crate::strutil::spec_split(card_lines@[old_li]@, ',')[0]) by {
                assert(comp@[0]@ == comp.deep_view()[0]);
            }
        }
        let pile_name: String = if c.pile.as_str().unicode_len() == 0 {
            c.name.clone()
        } else {
            c.pile.clone()
        };
        let mut index = card_piles.len();
        let mut pi: usize = 0;
        while pi < card_piles.len()
            invariant
                index <= card_piles@.len(),
                card_piles@.len() == removed@.len(),
                crate::collection::spec_piles_wf(card_piles@),
                pi <= card_piles@.len(),
                found_excluded@.len() == exclude_names@.len(),
                has_error == spec_bad_in_prefix(card_lines@, old_li),
                forall|e: int|
                    0 <= e < exclude_names@.len() ==> (#[trigger] found_excluded@[e])
                        == spec_name_in_prefix(card_lines@, old_li, exclude_names@[e]@),
            decreases card_piles@.len() - pi,
        {
            if crate::strutil::str_eq(card_piles[pi].name.as_str(), pile_name.as_str()) {
                index = pi;
                break ;
            }
            pi += 1;
        }
        if index == card_piles.len() {
            let newpile = crate::piles::Pile::new(pile_name.as_str());
            card_piles.push(newpile);
            removed.push(false);
        }
        if index >= card_piles.len() {
            continue ;
        }
        let ghost pre_found = found_excluded@;
        let mut ei: usize = 0;
        while ei < exclude_names.len()
            invariant
                0 <= ei <= exclude_names@.len(),
                found_excluded@.len() == exclude_names@.len(),
                pre_found.len() == exclude_names@.len(),
                index < card_piles@.len(),
                card_piles@.len() == removed@.len(),
                crate::collection::spec_piles_wf(card_piles@),
                has_error == spec_bad_in_prefix(card_lines@, old_li),
                forall|e: int|
                    0 <= e < exclude_names@.len() ==> (#[trigger] pre_found[e])
                        == spec_name_in_prefix(card_lines@, old_li, exclude_names@[e]@),
                forall|e: int|
                    0 <= e < found_excluded@.len() ==> (#[trigger] found_excluded@[e]) == (
                    pre_found[e] || (e < ei && exclude_names@[e]@ == c.name@)),
            decreases exclude_names@.len() - ei,
        {
            if crate::strutil::str_eq(exclude_names[ei].as_str(), c.name.as_str()) {
                removed.set(index, true);
                found_excluded.set(ei, true);
            }
            ei += 1;
        }
        let ghost pre = card_piles@;
        let mut pile = card_piles.remove(index);
        pile.add_card(c);
        card_piles.insert(index, pile);
        proof {
            assert forall|k: int|
                0 <= k < card_piles@.len() implies (#[trigger] card_piles@[k]).wf() by {
                if k < index {
                    assert(card_piles@[k] == pre[k]);
                } else if k > index {
                    assert(card_piles@[k] == pre[k]);
                }
            }
            lemma_prefix_step(card_lines@, old_li);
            assert(has_error == spec_bad_in_prefix(card_lines@, li as int));
            assert forall|e: int|
                0 <= e < exclude_names@.len() implies (#[trigger] found_excluded@[e])
                == spec_name_in_prefix(card_lines@, li as int, exclude_names@[e]@) by {
                assert(spec_name_in_prefix(card_lines@, li as int, exclude_names@[e]@) == (
                spec_name_in_prefix(card_lines@, old_li, exclude_names@[e]@) || (old_li >= 1
                    && !spec_card_line_skipped(card_lines@[old_li]@) && !spec_card_line_bad(
                    card_lines@[old_li]@,
                ) && crate::strutil::spec_split(card_lines@[old_li]@, ',')[0]
                    == exclude_names@[e]@)));
            }
        }
    }
    let mut result: Vec<crate::piles::Pile> = Vec::new();
    let mut ri: usize = 0;
    let total = card_piles.len();
    while ri < total
        invariant
            0 <= ri <= total,
            total == card_piles@.len(),
            card_piles@.len() == removed@.len(),
            crate::collection::spec_piles_wf(card_piles@),
            crate::collection::spec_piles_wf(result@),
            ri <= card_piles@.len(),
            nlines == card_lines@.len(),
            found_excluded@.len() == exclude_names@.len(),
            has_error == spec_bad_in_prefix(card_lines@, nlines as int),
            forall|e: int|
                0 <= e < exclude_names@.len() ==> (#[trigger] found_excluded@[e])
                    == spec_name_in_prefix(card_lines@, nlines as int, exclude_names@[e]@),
        decreases total - ri,
    {
        if !removed[ri] {
            let ghost pre = card_piles@;
            let p = card_piles.remove(ri);
            let ghost rpre = result@;
            result.push(p);
            card_piles.insert(ri, crate::piles::Pile::new(""));
            proof {
                assert(result@ =~= rpre.push(pre[ri as int]));
                assert forall|k: int|
                    0 <= k < result@.len() implies (#[trigger] result@[k]).wf() by {
                    if k < rpre.len() {
                        assert(result@[k] == rpre[k]);
                    } else {
                        assert(result@[k] == pre[ri as int]);
                    }
                }
                assert forall|k: int|
                    0 <= k < card_piles@.len() implies (#[trigger] card_piles@[k]).wf() by {
                    if k < ri {
                        assert(card_piles@[k] == pre[k]);
                    } else if k > ri {
                        assert(card_piles@[k] == pre[k]);
                    }
                }
            }
        }
        ri += 1;
    }
    if !has_error {
        let mut ei: usize = 0;
        while ei < exclude_names.len()
            invariant
                found_excluded@.len() == exclude_names@.len(),
                ei <= exclude_names@.len(),
                nlines == card_lines@.len(),
                has_error == spec_bad_in_prefix(card_lines@, nlines as int),
                forall|e: int|
                    0 <= e < exclude_names@.len() ==> (#[trigger] found_excluded@[e])
                        == spec_name_in_prefix(card_lines@, nlines as int, exclude_names@[e]@),
                forall|e2: int| 0 <= e2 < ei ==> #[trigger] found_excluded@[e2],
            decreases exclude_names@.len() - ei,
        {
            if !found_excluded[ei] {
                let mut msg = String::new();
                msg = msg.concat("Unknown card ");
                msg = msg.concat(exclude_names[ei].as_str());
                proof {
                    assert(!spec_file_has_card(card_lines@, exclude_names@[ei as int]@));
                }
                return Err(msg);
            }
            ei += 1;
        }
        proof {
            assert(!(exists|e: int|
                0 <= e < exclude_names@.len() && !spec_file_has_card(
                    card_lines@,
                    (#[trigger] exclude_names@[e])@,
                ))) by {
                if exists|e: int|
                    0 <= e < exclude_names@.len() && !spec_file_has_card(
                        card_lines@,
                        (#[trigger] exclude_names@[e])@,
                    ) {
                    let e = choose|e: int|
                        0 <= e < exclude_names@.len() && !spec_file_has_card(
                            card_lines@,
                            (#[trigger] exclude_names@[e])@,
                        );
                    assert(found_excluded@[e]);
                }
            }
        }
    }
    if has_error {
        return Err(error);
    }
    Ok(result)
}

} // verus!
