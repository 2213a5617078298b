use armor_search::skills::{Skill, Skills};

fn skill(name: &str, level: isize) -> Skill {
    Skill { name: name.to_string(), level }
}

fn vector(entries: &[(&str, isize)]) -> Skills {
    let list: Vec<Skill> = entries.iter().map(|(n, l)| skill(n, *l)).collect();
    Skills::from_skill_vec(&list)
}

fn level(s: &Skills, name: &str) -> isize {
    s.level_of(&name.to_string())
}

#[test]
fn from_contributions_drops_non_positive_and_sums() {
    let v = vector(&[("A", 3), ("B", -1), ("A", 2)]);
    assert_eq!(v.len(), 1);
    assert_eq!(level(&v, "A"), 5);
    assert!(!v.has_skill("B"));
}

#[test]
fn from_contributions_zero_level_ignored() {
    let v = vector(&[("A", 0), ("B", 2), ("B", 0)]);
    assert_eq!(v.len(), 1);
    assert!(!v.has_skill("A"));
    assert_eq!(level(&v, "B"), 2);
}

#[test]
fn from_contributions_empty_input() {
    let v = Skills::from_skill_vec(&Vec::new());
    assert!(v.is_empty());
    assert_eq!(v.len(), 0);
    assert!(Skills::new().is_empty());
}

#[test]
fn merge_sums_levels() {
    let mut a = vector(&[("A", 1), ("B", 2)]);
    let b = vector(&[("B", 3), ("C", 4)]);
    a.merge(&b);
    assert_eq!(a.len(), 3);
    assert_eq!(level(&a, "A"), 1);
    assert_eq!(level(&a, "B"), 5);
    assert_eq!(level(&a, "C"), 4);
}

#[test]
fn merge_commutative_and_associative_on_values() {
    let a = vector(&[("A", 1), ("B", 2)]);
    let b = vector(&[("B", 3), ("C", 4)]);
    let c = vector(&[("A", 5), ("D", 6)]);

    let mut ab = a.duplicate();
    ab.merge(&b);
    let mut ba = b.duplicate();
    ba.merge(&a);
    for name in ["A", "B", "C", "D"] {
        assert_eq!(level(&ab, name), level(&ba, name));
    }
    assert_eq!(ab.len(), ba.len());

    let mut ab_c = ab.duplicate();
    ab_c.merge(&c);
    let mut bc = b.duplicate();
    bc.merge(&c);
    let mut a_bc = a.duplicate();
    a_bc.merge(&bc);
    for name in ["A", "B", "C", "D"] {
        assert_eq!(level(&ab_c, name), level(&a_bc, name));
    }
    assert_eq!(ab_c.len(), a_bc.len());
    assert_eq!(level(&ab_c, "A"), 6);
}

#[test]
fn superset_examples() {
    let v = vector(&[("A", 5), ("B", 3)]);
    assert!(v.is_superset_of(&vector(&[("A", 3)])));
    assert!(v.is_superset_of(&vector(&[("A", 5), ("B", 3)])));
    assert!(!v.is_superset_of(&vector(&[("A", 5), ("B", 4)])));
    assert!(!v.is_superset_of(&vector(&[("C", 1)])));
    assert!(v.is_superset_of(&Skills::new()));
}

#[test]
fn intersection_ignores_levels() {
    let v = vector(&[("A", 5), ("B", 3)]);
    assert!(v.has_intersection(&vector(&[("B", 9)])));
    assert!(!v.has_intersection(&vector(&[("C", 1)])));
    assert!(!v.has_intersection(&Skills::new()));
}

#[test]
fn subtract_example() {
    let mut need = vector(&[("A", 5), ("B", 2)]);
    need.subtract(&vector(&[("A", 3)]));
    assert_eq!(need.len(), 2);
    assert_eq!(level(&need, "A"), 2);
    assert_eq!(level(&need, "B"), 2);
}

#[test]
fn subtract_drops_met_requirements() {
    let mut need = vector(&[("A", 5), ("B", 2)]);
    need.subtract(&vector(&[("A", 7), ("B", 2), ("C", 1)]));
    assert!(need.is_empty());
}

#[test]
fn lower_reduces_and_drops() {
    let mut v = vector(&[("A", 5), ("B", 2)]);
    v.lower(&"A".to_string(), 2);
    assert_eq!(level(&v, "A"), 3);
    v.lower(&"B".to_string(), 4);
    assert!(!v.has_skill("B"));
    assert_eq!(v.len(), 1);
}
