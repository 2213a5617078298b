use armor_search::text::{parse_skill, parse_slot_size};

#[test]
fn parse_skill_reads_name_and_level() {
    let s = parse_skill("Attack Boost Lv3").unwrap();
    assert_eq!(s.name, "Attack Boost");
    assert_eq!(s.level, 3);
}

#[test]
fn parse_skill_trims_text_and_name() {
    let s = parse_skill("  Weakness Exploit  Lv2 \n").unwrap();
    assert_eq!(s.name, "Weakness Exploit");
    assert_eq!(s.level, 2);
}

#[test]
fn parse_skill_keeps_negative_levels() {
    let s = parse_skill("Defense Down Lv-1").unwrap();
    assert_eq!(s.name, "Defense Down");
    assert_eq!(s.level, -1);
}

#[test]
fn parse_skill_rejects_malformed() {
    assert!(parse_skill("NoLevel").is_none());
    assert!(parse_skill("Guard LvX").is_none());
    assert!(parse_skill("Guard Lv").is_none());
}

#[test]
fn parse_slot_size_reads_image_name() {
    assert_eq!(parse_slot_size("https://cdn.example/img/deco2.png"), Some(2));
    assert_eq!(parse_slot_size("a/b/deco10.webp"), Some(10));
    assert_eq!(parse_slot_size("a/b/4.png"), Some(4));
}

#[test]
fn parse_slot_size_rejects_malformed() {
    assert_eq!(parse_slot_size("deco3.png"), None);
    assert_eq!(parse_slot_size("a/b/deco.png"), None);
    assert_eq!(parse_slot_size("a/b/deco3"), None);
    assert_eq!(parse_slot_size(""), None);
}
