use armor_search::catalog::{decoration_index, Armor, CandidatePool, Deco};
use armor_search::part::{ArmorPart, PartKeywords};
use armor_search::skills::{Skill, Skills};
use armor_search::solver::{solve, Assignment, SolveOutcome};

fn skill(name: &str, level: isize) -> Skill {
    Skill { name: name.to_string(), level }
}

fn vector(entries: &[(&str, isize)]) -> Skills {
    let list: Vec<Skill> = entries.iter().map(|(n, l)| skill(n, *l)).collect();
    Skills::from_skill_vec(&list)
}

fn armor(name: &str, part: ArmorPart, rarity: isize, skills: &[(&str, isize)], slots: &[isize]) -> Armor {
    Armor {
        name: name.to_string(),
        part,
        rarity,
        skills: skills.iter().map(|(n, l)| skill(n, *l)).collect(),
        slots: slots.to_vec(),
    }
}

fn deco(name: &str, size: isize, skill_name: &str, level: isize) -> Deco {
    Deco { name: name.to_string(), size, skill: skill(skill_name, level) }
}

fn keywords() -> PartKeywords {
    let mut k = PartKeywords::new();
    k.add_keyword(&ArmorPart::Head, "Helm");
    k
}

#[test]
fn classifier_matches_keyword() {
    let k = keywords();
    assert_eq!(ArmorPart::from_name(&k, "Helm of Valor"), ArmorPart::Head);
    assert_eq!(ArmorPart::from_name(&k, "Mystery Garb"), ArmorPart::Unknown);
}

#[test]
fn classifier_unknown_triggers_fallback() {
    let mut k = keywords();
    let mut a = armor("Mystery Garb", ArmorPart::Unknown, 1, &[("A", 1)], &[]);
    assert!(a.reclassify(&k));
    assert_eq!(a.part, ArmorPart::Unknown);

    let choice = ArmorPart::from_choice(2);
    assert!(a.apply_answer(&mut k, choice, "Garb"));
    assert_eq!(a.part, ArmorPart::Body);
    assert_eq!(k.body, vec!["Garb".to_string()]);
    assert_eq!(ArmorPart::from_name(&k, "Noble Garb"), ArmorPart::Body);

    let mut b = armor("Odd Thing", ArmorPart::Unknown, 1, &[], &[]);
    assert!(b.reclassify(&k));
    let declined = ArmorPart::from_choice(9);
    assert_eq!(declined, ArmorPart::Unknown);
    assert!(!b.apply_answer(&mut k, declined, "Thing"));
    assert_eq!(b.part, ArmorPart::Unknown);
    assert_eq!(k.body.len(), 1);
    assert!(k.head.len() == 1 && k.hands.is_empty() && k.waist.is_empty() && k.legs.is_empty());
}

#[test]
fn classifier_reclassify_finds_keyword() {
    let k = keywords();
    let mut a = armor("Iron Helm", ArmorPart::Unknown, 1, &[], &[]);
    assert!(!a.reclassify(&k));
    assert_eq!(a.part, ArmorPart::Head);
    let mut b = armor("Iron Mail", ArmorPart::Legs, 1, &[], &[]);
    assert!(!b.reclassify(&k));
    assert_eq!(b.part, ArmorPart::Legs);
}

#[test]
fn classifier_first_category_wins() {
    let mut k = PartKeywords::new();
    k.add_keyword(&ArmorPart::Legs, "Iron");
    k.add_keyword(&ArmorPart::Hands, "Grip");
    k.add_keyword(&ArmorPart::Unknown, "Ignored");
    assert_eq!(ArmorPart::from_name(&k, "Iron Grip"), ArmorPart::Hands);
    assert_eq!(ArmorPart::from_name(&k, "Ignored"), ArmorPart::Unknown);
    assert_eq!(ArmorPart::from_name(&k, "Iron Boots"), ArmorPart::Legs);
}

#[test]
fn from_catalog_classifies_and_orders_slots() {
    let k = keywords();
    let a = Armor::from_catalog("Helm of Valor".to_string(), 4, vec![skill("A", 1)], vec![3, 1, 2, 1], &k);
    assert_eq!(a.part, ArmorPart::Head);
    assert_eq!(a.slots, vec![1, 1, 2, 3]);
    assert_eq!(a.rarity, 4);
    assert_eq!(a.skills.len(), 1);
    let b = Armor::from_catalog("Mystery Garb".to_string(), 1, Vec::new(), Vec::new(), &k);
    assert_eq!(b.part, ArmorPart::Unknown);
    assert!(b.slots.is_empty());
}

#[test]
fn part_choices_and_names() {
    assert_eq!(ArmorPart::from_choice(1), ArmorPart::Head);
    assert_eq!(ArmorPart::from_choice(5), ArmorPart::Legs);
    assert_eq!(ArmorPart::from_choice(0), ArmorPart::Unknown);
    assert_eq!(ArmorPart::from_index(2), ArmorPart::Hands);
    assert_eq!(ArmorPart::Waist.as_str(), "waist");
    assert_eq!(ArmorPart::Unknown.as_str(), "unknown");
}

#[test]
fn candidate_pool_filters_and_keeps_order() {
    let items = vec![
        armor("h1", ArmorPart::Head, 3, &[("A", 1)], &[]),
        armor("h2", ArmorPart::Head, 1, &[("A", 1)], &[]),
        armor("h3", ArmorPart::Head, 5, &[("Z", 1)], &[]),
        armor("u", ArmorPart::Unknown, 5, &[("A", 1)], &[]),
        armor("h4", ArmorPart::Head, 4, &[("B", 2), ("A", -1)], &[]),
        armor("h5", ArmorPart::Head, 4, &[("A", 0)], &[]),
        armor("l1", ArmorPart::Legs, 2, &[("B", 1)], &[]),
    ];
    let target = vector(&[("A", 1), ("B", 1)]);
    let pool = CandidatePool::build(&items, &target, 2);
    assert_eq!(pool.head, vec![0, 4]);
    assert_eq!(pool.legs, vec![6]);
    assert!(pool.body.is_empty());
    assert_eq!(pool.empty_part(), Some(ArmorPart::Body));
}

#[test]
fn decoration_index_orders_by_size() {
    let decos = vec![
        deco("d0", 1, "A", 1),
        deco("d1", 3, "B", 1),
        deco("d2", 2, "Z", 1),
        deco("d3", 3, "A", 2),
        deco("d4", 1, "B", 1),
    ];
    let target = vector(&[("A", 1), ("B", 1)]);
    assert_eq!(decoration_index(&decos, &target), vec![1, 3, 0, 4]);
}

fn five(extra_legs: &[(&str, isize)], legs_slots: &[isize]) -> Vec<Armor> {
    vec![
        armor("head", ArmorPart::Head, 1, &[("A", 1)], &[]),
        armor("body", ArmorPart::Body, 1, &[("B", 1)], &[]),
        armor("hands", ArmorPart::Hands, 1, &[("C", 1)], &[]),
        armor("waist", ArmorPart::Waist, 1, &[("D", 1)], &[]),
        armor("legs", ArmorPart::Legs, 1, extra_legs, legs_slots),
    ]
}

fn searched(r: SolveOutcome) -> Vec<(Vec<usize>, Vec<Assignment>)> {
    match r {
        SolveOutcome::Searched(v) => v.into_iter().map(|c| (c.picks, c.decorations)).collect(),
        SolveOutcome::EmptyPart(p) => panic!("empty part {:?}", p),
    }
}

#[test]
fn solver_exact_union_without_decorations() {
    let items = five(&[("E", 1)], &[]);
    let target = vector(&[("A", 1), ("B", 1), ("C", 1), ("D", 1), ("E", 1)]);
    let pool = CandidatePool::build(&items, &target, 0);
    let decos: Vec<Deco> = Vec::new();
    let order = decoration_index(&decos, &target);
    let found = searched(solve(&items, &pool, &decos, &order, &target));
    assert_eq!(found, vec![(vec![0, 1, 2, 3, 4], vec![])]);
}

#[test]
fn solver_reports_merged_vector() {
    let items = five(&[("E", 1), ("A", 2)], &[]);
    let target = vector(&[("A", 1), ("B", 1), ("C", 1), ("D", 1), ("E", 1)]);
    let pool = CandidatePool::build(&items, &target, 0);
    let decos: Vec<Deco> = Vec::new();
    match solve(&items, &pool, &decos, &Vec::new(), &target) {
        SolveOutcome::Searched(v) => {
            assert_eq!(v.len(), 1);
            assert_eq!(v[0].skills.len(), 5);
            assert_eq!(v[0].skills.level_of(&"A".to_string()), 3);
            assert_eq!(v[0].skills.level_of(&"E".to_string()), 1);
        }
        SolveOutcome::EmptyPart(p) => panic!("empty part {:?}", p),
    }
}

#[test]
fn solver_near_miss_closed_by_one_decoration() {
    let items = five(&[("E", 1)], &[1]);
    let target = vector(&[("A", 1), ("B", 1), ("C", 1), ("D", 1), ("E", 2)]);
    let pool = CandidatePool::build(&items, &target, 0);
    let decos = vec![deco("big", 3, "E", 1), deco("small", 1, "E", 1), deco("other", 1, "F", 1)];
    let order = decoration_index(&decos, &target);
    assert_eq!(order, vec![0, 1]);
    let found = searched(solve(&items, &pool, &decos, &order, &target));
    assert_eq!(found, vec![(vec![0, 1, 2, 3, 4], vec![Assignment { piece: 4, slot: 0, deco: 1 }])]);
}

#[test]
fn solver_rejects_when_slots_cannot_close() {
    let items = five(&[("E", 1)], &[1]);
    let target = vector(&[("A", 1), ("B", 1), ("C", 1), ("D", 1), ("E", 3)]);
    let pool = CandidatePool::build(&items, &target, 0);
    let decos = vec![deco("small", 1, "E", 1)];
    let order = decoration_index(&decos, &target);
    let found = searched(solve(&items, &pool, &decos, &order, &target));
    assert!(found.is_empty());
}

#[test]
fn solver_enumerates_in_slot_order() {
    let mut items = five(&[("E", 1)], &[]);
    items.push(armor("head2", ArmorPart::Head, 1, &[("A", 2)], &[]));
    items.push(armor("legs2", ArmorPart::Legs, 1, &[("A", 1)], &[]));
    let target = vector(&[("A", 1), ("B", 1), ("C", 1), ("D", 1)]);
    let pool = CandidatePool::build(&items, &target, 0);
    assert_eq!(pool.head, vec![0, 5]);
    assert_eq!(pool.legs, vec![6]);
    let decos: Vec<Deco> = Vec::new();
    let found = searched(solve(&items, &pool, &decos, &Vec::new(), &target));
    assert_eq!(found, vec![(vec![0, 1, 2, 3, 6], vec![]), (vec![5, 1, 2, 3, 6], vec![])]);
}

#[test]
fn solver_twice_gives_same_result() {
    let items = five(&[("E", 1)], &[1, 2]);
    let target = vector(&[("A", 1), ("E", 3)]);
    let pool = CandidatePool::build(&items, &target, 0);
    assert_eq!(pool.empty_part(), Some(ArmorPart::Body));
    let mut items = items;
    items.push(armor("b", ArmorPart::Body, 1, &[("A", 1)], &[]));
    items.push(armor("h", ArmorPart::Hands, 1, &[("A", 1)], &[]));
    items.push(armor("w", ArmorPart::Waist, 1, &[("A", 1)], &[]));
    let pool = CandidatePool::build(&items, &target, 0);
    let decos = vec![deco("e2", 2, "E", 1), deco("e1", 1, "E", 1)];
    let order = decoration_index(&decos, &target);
    let first = searched(solve(&items, &pool, &decos, &order, &target));
    let second = searched(solve(&items, &pool, &decos, &order, &target));
    assert_eq!(first, second);
    assert_eq!(first.len(), 1);
    assert_eq!(first[0].1.len(), 2);
}

#[test]
fn solver_empty_category_is_reported() {
    let mut items = five(&[("E", 1)], &[]);
    items.remove(4);
    let target = vector(&[("A", 1), ("E", 1)]);
    let pool = CandidatePool::build(&items, &target, 0);
    let decos: Vec<Deco> = Vec::new();
    match solve(&items, &pool, &decos, &Vec::new(), &target) {
        SolveOutcome::EmptyPart(p) => assert_eq!(p, ArmorPart::Body),
        SolveOutcome::Searched(_) => panic!("expected an empty part"),
    }
}

#[test]
fn solver_search_without_match_is_distinct() {
    let items = five(&[("E", 1)], &[]);
    let target = vector(&[("A", 2), ("B", 1), ("C", 1), ("D", 1), ("E", 1)]);
    let pool = CandidatePool::build(&items, &target, 0);
    let decos: Vec<Deco> = Vec::new();
    match solve(&items, &pool, &decos, &Vec::new(), &target) {
        SolveOutcome::Searched(v) => assert!(v.is_empty()),
        SolveOutcome::EmptyPart(_) => panic!("every slot has a candidate"),
    }
}

#[test]
fn level_limit_check() {
    let a = armor("a", ArmorPart::Head, 1, &[("A", 400_000_000), ("B", -5)], &[]);
    assert!(a.within_level_limit());
    let b = armor("b", ArmorPart::Head, 1, &[("A", 300_000_000), ("B", 200_000_000)], &[]);
    assert!(!b.within_level_limit());
}
