use std::collections::BTreeMap;
use waragent_simulation::board::{translate, Board, Relation, Stick};

fn names() -> Vec<String> {
    vec!["Country A".to_string(), "Country B".to_string(), "Country C".to_string()]
}

#[test]
fn peace_is_default_and_removes() {
    let mut b = Board::new(0);
    assert_eq!(b.relation_to(1), Relation::Peace);
    b.set_relation(1, Relation::Alliance);
    assert_eq!(b.relation_to(1), Relation::Alliance);
    b.set_relation(1, Relation::Peace);
    assert_eq!(b.relation_to(1), Relation::Peace);
    assert!(b.relations.is_empty());
}

#[test]
fn counterparts_filters_by_relation() {
    let mut b = Board::new(0);
    b.set_relation(1, Relation::War);
    b.set_relation(2, Relation::Alliance);
    assert_eq!(b.counterparts(Relation::War), vec![1]);
    assert_eq!(b.counterparts(Relation::Alliance), vec![2]);
}

#[test]
fn translate_lists_active_relations() {
    let mut b = Board::new(0);
    b.set_relation(1, Relation::Alliance);
    b.set_relation(2, Relation::War);
    let stick = Stick { mobilized: true };
    let para = translate(&b, &stick, &names());
    assert!(para.contains("Country A"));
    assert!(para.contains("fully mobilized"));
    assert!(para.contains("alliance with Country B"));
    assert!(para.contains("at war with Country C"));
}

#[test]
fn translate_handles_no_relations() {
    let b = Board::new(0);
    let stick = Stick::default();
    let para = translate(&b, &stick, &names());
    assert!(para.contains("no active treaties"));
}

#[test]
fn relations_stay_sorted_and_overwrite() {
    let mut b = Board::new(3);
    b.set_relation(5, Relation::War);
    b.set_relation(1, Relation::NonAggression);
    b.set_relation(4, Relation::Alliance);
    b.set_relation(5, Relation::Peace);
    b.set_relation(1, Relation::Alliance);
    let expected: BTreeMap<u64, Relation> =
        [(1, Relation::Alliance), (4, Relation::Alliance)].into_iter().collect();
    assert_eq!(b.relations, expected);
    assert_eq!(
        b.pairs(),
        vec![((3, 1), Relation::Alliance), ((3, 4), Relation::Alliance)]
    );
    assert_eq!(b.counterparts(Relation::Alliance), vec![1, 4]);
    assert!(b.counterparts(Relation::War).is_empty());
}

#[test]
fn labels_and_descriptions() {
    assert_eq!(Relation::War.label(), "W");
    assert_eq!(Relation::Alliance.label(), "M");
    assert_eq!(Relation::NonAggression.label(), "T");
    assert_eq!(Relation::Peace.label(), "P");
    assert_eq!(Stick { mobilized: true }.label(), "MO (fully mobilized)");
    assert_eq!(Stick { mobilized: false }.label(), "not mobilized");
}

#[test]
fn translate_exact_paragraph() {
    let mut b = Board::new(0);
    b.set_relation(2, Relation::War);
    b.set_relation(1, Relation::Alliance);
    let para = translate(&b, &Stick { mobilized: false }, &names());
    assert_eq!(
        para,
        "You are the leadership of Country A. Your domestic mobilization status: not mobilized.\n\
         Your current international relations:\n\
         - You are in a military alliance with Country B [M].\n\
         - You are at war with Country C [W].\n"
    );
    let b0 = Board::new(7);
    let para0 = translate(&b0, &Stick::default(), &names());
    assert_eq!(
        para0,
        "You are the leadership of Country#7. Your domestic mobilization status: not mobilized.\n\
         You currently have no active treaties or active conflicts with any other country.\n"
    );
}
