use decker::collection::{CardColl, CollectionStatus};
use decker::config::{load_config, Cli};
use decker::selection::SelectionPtr;

fn cli_default() -> Cli {
    Cli {
        seed: Some(0),
        badrand: true,
        boxes: vec![],
        groups: vec![],
        boxfile: None,
        cardfile: None,
        list: false,
        landscape_count: Some(0),
        why: false,
        no_validate: false,
        exclude: vec![],
        included: vec![],
        info: false,
        no_attack_react: false,
        no_anti_cursor: false,
        max_cost_repeat: 0,
        min_type: vec![],
        max_type: vec![],
        max_prefixes: 0,
    }
}

fn base_lines() -> Vec<String> {
    let mut v = vec![
        "Card title,Pile title,Group,in supply,is kingdom,Types,cost,spend,debt,potion cost,points,keywords,interacts keywords,other interactions".to_string(),
        "Copper,,base,Y,N,Treasure,0,,,,,,,".to_string(),
        "Estate,,base,Y,N,Victory,2,,,,,,,".to_string(),
    ];
    for i in 1..=10 {
        v.push(format!("A{:02},,Alpha,Y,Y,Action,3,,,,,,,", i));
    }
    v
}

fn run(
    lines: Vec<String>,
    includes: Vec<&str>,
    cli: Cli,
) -> Result<(SelectionPtr, CardColl), String> {
    let mut conf = load_config(cli, &lines, &vec![], false)?;
    let piles = conf.piles;
    conf.piles = vec![];
    let mut state = CardColl::new_state(piles);
    CardColl::shuffle(&mut state, &mut conf.rand);
    let col = CardColl::from_state(state);
    match col.validate_collection() {
        CollectionStatus::CollOK => {}
        CollectionStatus::CollWarning(w) => panic!("catalog warnings: {:?}", w),
    }
    let cons = conf.build_constraints(&col)?;
    let mut inc = Vec::new();
    for name in includes {
        inc.push(col.get_pile_for_card(name).expect("included card exists"));
    }
    let sel = col.generate_selection(10, conf.optional_extras, &inc, &cons, &mut conf.rand)?;
    Ok((sel, col))
}

fn pile_names(sel: &SelectionPtr, col: &CardColl) -> Vec<String> {
    sel.state
        .piles
        .iter()
        .map(|&i| col.state.piles[i].name.clone())
        .collect()
}

fn tags_of(sel: &SelectionPtr, col: &CardColl, name: &str) -> Vec<String> {
    let mut out = Vec::new();
    for (idx, ts) in sel.state.tags.iter() {
        if col.state.piles[*idx].name == name {
            for t in ts.iter() {
                out.push(t.clone());
            }
        }
    }
    out
}

#[test]
fn plain_catalog_fills_the_supply_exactly() {
    let (sel, col) = run(base_lines(), vec![], cli_default()).expect("a kingdom exists");
    assert_eq!(sel.state.current_normal_pile_count, 10);
    assert_eq!(sel.state.required_cards, 10);
    assert!(sel.state.notes.is_empty());
    let names = pile_names(&sel, &col);
    for i in 1..=10 {
        assert!(names.contains(&format!("A{:02}", i)));
    }
    assert!(names.contains(&"Copper".to_string()));
    assert!(names.contains(&"Estate".to_string()));
}

#[test]
fn young_witch_brings_a_bane() {
    let mut lines = base_lines();
    lines.push("Young Witch,,Alpha,Y,Y,Action,4,,,,,,,".to_string());
    let (sel, col) = run(lines, vec!["Young Witch"], cli_default()).expect("a kingdom exists");
    let names = pile_names(&sel, &col);
    assert!(names.contains(&"Young Witch".to_string()));
    assert_eq!(sel.state.required_cards, 11);
    assert!(sel.state.notes.contains(&"hasBane".to_string()));
    let mut banes = Vec::new();
    for (idx, ts) in sel.state.tags.iter() {
        if ts.iter().any(|t| t == "Bane") {
            banes.push(*idx);
        }
    }
    assert_eq!(banes.len(), 1);
    let bane = &col.state.piles[banes[0]];
    assert!(bane.name != "Young Witch");
    assert!(bane.types.contains(&"Action".to_string()));
    let has23 = (0..bane.costs.len()).any(|i| {
        let c = bane.costs.index(i);
        c.coin == Some(2) || c.coin == Some(3)
    });
    assert!(has23);
}

#[test]
fn interacting_card_is_pulled_in() {
    let mut lines = base_lines();
    lines.push("CardA,,Alpha,Y,Y,Action,3,,,,,,,card(CardB)".to_string());
    lines.push("CardB,,Alpha,Y,Y,Action,3,,,,,,,".to_string());
    let (sel, col) = run(lines, vec!["CardA"], cli_default()).expect("a kingdom exists");
    let names = pile_names(&sel, &col);
    assert!(names.contains(&"CardA".to_string()));
    assert!(names.contains(&"CardB".to_string()));
    let tags = tags_of(&sel, &col, "CardB");
    assert!(tags.contains(&"<why?card:CardA interacts with it>".to_string()));
}

#[test]
fn a_curser_without_room_for_its_counter_fails() {
    let mut lines = base_lines();
    lines.push("Witch,,Alpha,Y,Y,Action;Attack,5,,,,,curser,,".to_string());
    lines.push("Moat,,Alpha,Y,Y,Action;Reaction,2,,,,,trash_any,,react(Attack)".to_string());
    let includes = vec![
        "Witch", "A01", "A02", "A03", "A04", "A05", "A06", "A07", "A08", "A09",
    ];
    let res = run(lines.clone(), includes.clone(), cli_default());
    assert!(res.is_err());

    let mut relaxed = cli_default();
    relaxed.no_anti_cursor = true;
    relaxed.no_attack_react = true;
    let res = run(lines, includes, relaxed);
    assert!(res.is_ok());
}

#[test]
fn a_potion_cost_brings_the_potion_pile() {
    let mut lines = base_lines();
    lines.push("AlchLab,,Alpha,Y,Y,Action,3,,,1,,,,".to_string());
    lines.push("Potion,,Alchemy-base,Y,N,Treasure,4,,,,,,,".to_string());
    let (sel, col) = run(lines, vec!["AlchLab"], cli_default()).expect("a kingdom exists");
    let names = pile_names(&sel, &col);
    assert!(names.contains(&"Potion".to_string()));
    let tags = tags_of(&sel, &col, "Potion");
    assert!(tags.contains(&"<why:AddPotion>".to_string()));
}

#[test]
fn five_prosperity_piles_bring_the_base_cards() {
    let mut lines = base_lines();
    for i in 1..=5 {
        lines.push(format!("P{:02},,Prosperity,Y,Y,Action,3,,,,,,,", i));
    }
    lines.push("Platinum,,Prosperity-base,Y,N,Treasure,9,,,,,,,".to_string());
    lines.push("Colony,,Prosperity-base,Y,N,Victory,11,,,,,,,".to_string());

    let four = vec!["P01", "P02", "P03", "P04"];
    let (sel, _col) = run(lines.clone(), four, cli_default()).expect("a kingdom exists");
    assert!(!sel.state.notes.contains(&"addedProsperity-base".to_string()));

    let five = vec!["P01", "P02", "P03", "P04", "P05"];
    let (sel, col) = run(lines, five, cli_default()).expect("a kingdom exists");
    assert!(sel.state.notes.contains(&"addedProsperity-base".to_string()));
    let names = pile_names(&sel, &col);
    assert!(names.contains(&"Platinum".to_string()));
    assert!(names.contains(&"Colony".to_string()));
}

#[test]
fn repeated_costs_can_be_capped() {
    let mut lines = base_lines();
    // eight piles at distinct costs besides 3, so that a tight repeat
    // cap is satisfiable alongside the cost-3 piles
    for (i, cost) in [1, 2, 4, 5, 6, 7, 8, 9].iter().enumerate() {
        lines.push(format!("B{:02},,Alpha,Y,Y,Action,{},,,,,,,", i + 1, cost));
    }
    let mut cli = cli_default();
    cli.max_cost_repeat = 4;
    let (sel, col) = run(lines, vec![], cli).expect("a kingdom exists");
    // no cost may be carried by more than four piles
    let mut costs = Vec::new();
    for &idx in sel.state.piles.iter() {
        let pile = &col.state.piles[idx];
        if !(pile.supply && pile.kingdom) {
            continue;
        }
        for i in 0..pile.costs.len() {
            costs.push(pile.costs.index(i));
        }
    }
    for c in costs.iter() {
        let n = costs.iter().filter(|d| **d == *c).count();
        assert!(n <= 4, "cost repeated {} times", n);
    }
}

#[test]
fn type_quotas_are_honoured() {
    let mut lines = base_lines();
    lines.push("Gold,,Alpha,Y,Y,Treasure,6,,,,,,,".to_string());
    lines.push("Silver,,Alpha,Y,Y,Treasure,5,,,,,,,".to_string());
    let mut cli = cli_default();
    cli.min_type = vec!["Treasure:2".to_string()];
    let (sel, col) = run(lines, vec![], cli).expect("a kingdom exists");
    let treasures = sel
        .state
        .piles
        .iter()
        .filter(|&&i| col.state.piles[i].types.contains(&"Treasure".to_string()))
        .count();
    assert!(treasures >= 2);
}

#[test]
fn landscapes_come_from_the_extras() {
    let mut lines = base_lines();
    lines.push("Alms,,Alpha,N,N,Event,1,,,,,,,".to_string());
    lines.push("Tower,,Alpha,N,N,Landmark,,,,,,,,".to_string());
    let mut cli = cli_default();
    cli.landscape_count = Some(1);
    let (sel, col) = run(lines, vec![], cli).expect("a kingdom exists");
    let landscapes = sel
        .state
        .piles
        .iter()
        .filter(|&&i| {
            let p = &col.state.piles[i];
            !p.supply && !p.kingdom
        })
        .count();
    assert_eq!(landscapes, 1);
}

#[test]
fn unknown_cards_are_reported() {
    let lines = base_lines();
    let mut cli = cli_default();
    cli.exclude = vec!["NoSuchCard".to_string()];
    let err = match load_config(cli, &lines, &vec![], false) {
        Ok(_) => panic!("an unknown exclusion must be rejected"),
        Err(e) => e,
    };
    assert!(err.contains("Unknown card"));

    let mut cli = cli_default();
    cli.included = vec!["NoSuchCard".to_string()];
    let err = match load_config(cli, &lines, &vec![], false) {
        Ok(_) => panic!("an unknown inclusion must be rejected"),
        Err(e) => e,
    };
    assert!(err.contains("Can't find card"));
}

#[test]
fn identical_seeds_give_identical_kingdoms() {
    let (sel1, col1) = run(base_lines(), vec![], cli_default()).expect("a kingdom exists");
    let (sel2, col2) = run(base_lines(), vec![], cli_default()).expect("a kingdom exists");
    assert_eq!(pile_names(&sel1, &col1), pile_names(&sel2, &col2));
    assert_eq!(sel1.state.notes, sel2.state.notes);
}

#[test]
fn boxes_narrow_the_catalog() {
    let mut lines = base_lines();
    for i in 1..=10 {
        lines.push(format!("Z{:02},,Omega,Y,Y,Action,4,,,,,,,", i));
    }
    let box_lines = vec![
        "# the boxed products".to_string(),
        "".to_string(),
        "Starter=Alpha".to_string(),
    ];
    let mut cli = cli_default();
    cli.boxes = vec!["Starter".to_string()];
    cli.boxfile = Some("boxes".to_string());
    let conf = match load_config(cli, &lines, &box_lines, true) {
        Ok(c) => c,
        Err(e) => panic!("boxes should load: {}", e),
    };
    // only base and Alpha piles survive the narrowing
    assert!(conf.piles.iter().all(|p| p.card_group == "base" || p.card_group == "Alpha"));
    assert!(conf.piles.iter().any(|p| p.name == "A01"));
    assert!(!conf.piles.iter().any(|p| p.name == "Z01"));

    let mut cli = cli_default();
    cli.boxes = vec!["NoSuchBox".to_string()];
    cli.boxfile = Some("boxes".to_string());
    let err = match load_config(cli, &lines, &box_lines, true) {
        Ok(_) => panic!("an unknown box must be rejected"),
        Err(e) => e,
    };
    assert!(err.contains("not known"));
}


#[test]
fn test_validate_flags_missing_interaction() {
    let mut lines = base_lines();
    lines.push("X01,,Alpha,Y,Y,Action,3,,,,,,,card(Missing)".to_string());
    let cli = cli_default();
    let mut conf = load_config(cli, &lines, &vec![], false).expect("config loads");
    let piles = conf.piles;
    conf.piles = vec![];
    let state = CardColl::new_state(piles);
    let col = CardColl::from_state(state);
    match col.validate_collection() {
        CollectionStatus::CollOK => panic!("a dangling card interaction must warn"),
        CollectionStatus::CollWarning(w) => {
            assert_eq!(w.len(), 1);
            assert_eq!(w[0], "Card X01 interacts with Missing but it is missing.");
        }
    }
}

#[test]
fn test_validate_flags_missing_group_interaction() {
    let mut lines = base_lines();
    lines.push("X02,,Alpha,Y,Y,Action,3,,,,,,,group(Nowhere)".to_string());
    let cli = cli_default();
    let mut conf = load_config(cli, &lines, &vec![], false).expect("config loads");
    let piles = conf.piles;
    conf.piles = vec![];
    let state = CardColl::new_state(piles);
    let col = CardColl::from_state(state);
    match col.validate_collection() {
        CollectionStatus::CollOK => panic!("a dangling group interaction must warn"),
        CollectionStatus::CollWarning(w) => {
            assert_eq!(w.len(), 1);
            assert_eq!(w[0], "Card X02 interacts with group Nowhere but it is missing.");
        }
    }
}

#[test]
fn test_catalog_sorted_by_group_then_name() {
    let mut lines = base_lines();
    lines.push("Zz,,Zeta,Y,Y,Action,4,,,,,,,".to_string());
    lines.push("Aa,,Zeta,Y,Y,Action,4,,,,,,,".to_string());
    let cli = cli_default();
    let mut conf = load_config(cli, &lines, &vec![], false).expect("config loads");
    let piles = conf.piles;
    conf.piles = vec![];
    let state = CardColl::new_state(piles);
    let keys: Vec<(String, String)> = state
        .piles
        .iter()
        .map(|p| (p.card_group.clone(), p.name.clone()))
        .collect();
    let mut sorted = keys.clone();
    sorted.sort();
    assert_eq!(keys, sorted);
    assert_eq!(state.piles.first().unwrap().card_group, "Alpha");
    assert_eq!(state.piles.last().unwrap().card_group, "base");
}

#[test]
fn test_finish_records_needed_items() {
    let mut lines = vec![
        "Card title,Pile title,Group,in supply,is kingdom,Types,cost,spend,debt,potion cost,points,keywords,interacts keywords,other interactions".to_string(),
        "Copper,,base,Y,N,Treasure,0,,,,,,,".to_string(),
        "Estate,,base,Y,N,Victory,2,,,,,,,".to_string(),
    ];
    for i in 1..=10 {
        lines.push(format!("B{:02},,Beta,Y,Y,Action,3,,,,,+coffers,,", i));
    }
    let (sel, _col) = run(lines, vec![], cli_default()).expect("kingdom builds");
    let items: Vec<String> = sel.state.need_items.clone();
    assert!(items.iter().any(|s| s == "coin tokens"));
    assert!(items.iter().any(|s| s == "coffers/villagers mat"));
}

#[test]
fn test_finish_records_debt_tokens() {
    let mut lines = vec![
        "Card title,Pile title,Group,in supply,is kingdom,Types,cost,spend,debt,potion cost,points,keywords,interacts keywords,other interactions".to_string(),
        "Copper,,base,Y,N,Treasure,0,,,,,,,".to_string(),
        "Estate,,base,Y,N,Victory,2,,,,,,,".to_string(),
    ];
    for i in 1..=9 {
        lines.push(format!("B{:02},,Beta,Y,Y,Action,3,,,,,,,", i));
    }
    lines.push("D01,,Beta,Y,Y,Action,3,,4,,,,,".to_string());
    let (sel, _col) = run(lines, vec![], cli_default()).expect("kingdom builds");
    assert!(sel.state.need_items.iter().any(|s| s == "debt tokens"));
}
