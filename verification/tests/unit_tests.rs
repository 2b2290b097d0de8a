use decker::cards::make_card;
use decker::costs::{decode_cost, Cost, CostSet, CostTarget, CostVotes};
use decker::strutil::{i8_to_string, no_empty_split, parse_i8, parse_u8, sort_strings, string_split, u64_to_string};
use decker::{bool_value, group_name_prefix, short_value};

fn fields(cols: &[&str]) -> Vec<String> {
    cols.iter().map(|s| s.to_string()).collect()
}

#[test]
fn splitting_keeps_every_piece() {
    let v = string_split("a;bb;;c", ';');
    assert_eq!(v, vec!["a".to_string(), "bb".to_string(), "".to_string(), "c".to_string()]);
    let v = string_split("", ';');
    assert_eq!(v, vec!["".to_string()]);
    let v = no_empty_split(&"".to_string(), ';');
    assert!(v.is_empty());
}

#[test]
fn parsing_small_numbers() {
    assert_eq!(parse_i8("42"), Some(42));
    assert_eq!(parse_i8("-3"), Some(-3));
    assert_eq!(parse_i8("+7"), Some(7));
    assert_eq!(parse_i8("128"), None);
    assert_eq!(parse_i8("-128"), Some(-128));
    assert_eq!(parse_i8(""), None);
    assert_eq!(parse_i8("x1"), None);
    assert_eq!(parse_u8("255"), Some(255));
    assert_eq!(parse_u8("-1"), None);
    assert_eq!(short_value("12"), 12);
    assert_eq!(short_value("oops"), -1);
}

#[test]
fn rendering_numbers() {
    assert_eq!(u64_to_string(0), "0");
    assert_eq!(u64_to_string(907), "907");
    assert_eq!(i8_to_string(-45), "-45");
    assert_eq!(i8_to_string(-128), "-128");
}

#[test]
fn flags_and_prefixes() {
    assert!(bool_value("Y"));
    assert!(bool_value("y"));
    assert!(!bool_value("n"));
    assert_eq!(group_name_prefix("Cornucopia-prizes"), "Cornucopia");
    assert_eq!(group_name_prefix("base"), "base");
}

#[test]
fn cost_strings() {
    let c = Cost::new(Some(3), None, None);
    assert_eq!(c.get_string(), "(3,,)");
    let c = Cost::new(Some(2), Some(1), None);
    assert_eq!(c.get_string(), "(2,1D,)");
    let c = Cost::new(None, None, Some(4));
    assert_eq!(c.get_string(), "(,,4D)");
}

#[test]
fn decoding_cost_targets() {
    match decode_cost("cost<=4") {
        Some(CostTarget::UpTo(u)) => {
            assert_eq!(u.limit, 4);
            assert_eq!(u.helper.cache_string, "UT4");
        }
        _ => panic!("expected an up-to target"),
    }
    match decode_cost("cost=+2") {
        Some(CostTarget::Relative(r)) => {
            assert_eq!(r.cost_delta, 2);
            assert!(r.no_less);
            assert_eq!(r.helper.cache_string, "CRtrue2");
        }
        _ => panic!("expected a relative target"),
    }
    match decode_cost("cost=-1") {
        Some(CostTarget::Relative(r)) => {
            assert_eq!(r.cost_delta, -1);
            assert!(r.no_less);
        }
        _ => panic!("expected a relative target"),
    }
    match decode_cost("cost<=-2") {
        Some(CostTarget::Relative(r)) => {
            assert_eq!(r.cost_delta, -2);
            assert!(!r.no_less);
        }
        _ => panic!("expected a relative target"),
    }
    match decode_cost("cost>=10") {
        Some(CostTarget::InSet(s)) => {
            // 10 and 11 are the only coin costs from 10 up to the cap
            assert_eq!(s.costs.len(), 2);
        }
        _ => panic!("expected an in-set target"),
    }
    match decode_cost("cost_in(2.4)") {
        Some(CostTarget::InSet(s)) => {
            assert_eq!(s.costs.len(), 3);
            assert_eq!(s.helper.cache_string, "IS(2,,)(3,,)(4,,)");
        }
        _ => panic!("expected an in-set target"),
    }
    assert!(decode_cost("price<=4").is_none());
    assert!(decode_cost("cost_in(0.4)").is_none());
    assert!(decode_cost("cost_in(2.200)").is_none());
    assert!(decode_cost("cost<=0").is_none());
    assert!(decode_cost("cost<=31").is_none());
    assert!(decode_cost("cost=4").is_none());
    assert!(decode_cost("cost_in(2,4)").is_none());
}

#[test]
fn votes_pick_the_peak_within_tolerance() {
    let mut legal = CostSet::new();
    legal.insert(Cost::new_s(2));
    legal.insert(Cost::new_s(3));
    legal.insert(Cost::new_s(4));
    let mut votes = CostVotes::new(legal);
    votes.add_vote(&Cost::new_s(2), 1000);
    votes.add_vote(&Cost::new_s(3), 900);
    votes.add_vote(&Cost::new_s(4), 500);
    // a vote for a cost outside the catalog is ignored
    votes.add_vote(&Cost::new_s(9), 5000);
    let mut max_cost = CostSet::new();
    assert!(votes.get_max_weighted(&mut max_cost, 500, 210));
    assert!(max_cost.contains(&Cost::new_s(2)));
    assert!(max_cost.contains(&Cost::new_s(3)));
    assert!(!max_cost.contains(&Cost::new_s(4)));
    assert!(!max_cost.contains(&Cost::new_s(9)));

    let legal2 = {
        let mut l = CostSet::new();
        l.insert(Cost::new_s(1));
        l
    };
    let mut weak = CostVotes::new(legal2);
    weak.add_vote(&Cost::new_s(1), 100);
    let mut out = CostSet::new();
    // a peak below the threshold yields nothing
    assert!(!weak.get_max_weighted(&mut out, 500, 210));
    assert_eq!(out.len(), 0);
}

#[test]
fn sorting_strings_lexicographically() {
    let v = vec!["(10,,)".to_string(), "(2,,)".to_string(), "(1,,)".to_string()];
    let sorted = sort_strings(v);
    assert_eq!(sorted, vec!["(1,,)".to_string(), "(10,,)".to_string(), "(2,,)".to_string()]);
}

#[test]
fn making_cards_from_columns() {
    let c = make_card(&fields(&[
        "Witch", "", "Alpha", "Y", "Y", "Action;Attack", "5", "", "", "", "", "curser", "", "",
    ]))
    .expect("a plain card parses");
    assert_eq!(c.name, "Witch");
    assert_eq!(c.card_group, "Alpha");
    assert!(c.supply && c.kingdom);
    assert_eq!(c.cost.coin, Some(5));
    assert_eq!(c.types, vec!["Action".to_string(), "Attack".to_string()]);
    // too few columns
    assert!(make_card(&fields(&["A", "", "g"])).is_none());
    // a malformed structured interaction
    assert!(make_card(&fields(&[
        "A", "", "g", "Y", "Y", "Action", "3", "", "", "", "", "", "", "card(B",
    ]))
    .is_none());
    // a cost interaction that does not decode
    assert!(make_card(&fields(&[
        "A", "", "g", "Y", "Y", "Action", "3", "", "", "", "", "", "", "cost<=0",
    ]))
    .is_none());
}

#[test]
fn box_files_parse_and_reject_junk() {
    let lines = vec![
        "# comment".to_string(),
        "".to_string(),
        "BoxA=Alpha;Beta".to_string(),
        "BoxA=Gamma".to_string(),
    ];
    let boxes = decker::config::read_boxes(&lines).expect("a plain box file parses");
    assert_eq!(boxes.len(), 1);
    assert_eq!(boxes[0].0, "BoxA");
    assert_eq!(
        boxes[0].1,
        vec!["Alpha".to_string(), "Beta".to_string(), "Gamma".to_string()]
    );
    assert!(decker::config::read_boxes(&vec!["junk".to_string()]).is_err());
    assert!(decker::config::read_boxes(&vec!["=Alpha".to_string()]).is_err());
}

