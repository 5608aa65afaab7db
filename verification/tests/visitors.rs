use cargo_unfmt::lex::Spanned;
use cargo_unfmt::visitors::{MacroVisitor, Region, RelativePosition, StmtVisitor};

fn position(region: &Region, line: usize, col: usize) -> RelativePosition {
    region.contains(&Spanned::new((), line, col))
}

#[test]
fn region_of_several_lines() {
    let region = Region::new(2, 3, 6, 10);
    assert_eq!(position(&region, 1, 50), RelativePosition::Before);
    assert_eq!(position(&region, 2, 3), RelativePosition::Before);
    assert_eq!(position(&region, 2, 4), RelativePosition::Within);
    assert_eq!(position(&region, 2, 90), RelativePosition::Within);
    assert_eq!(position(&region, 3, 1), RelativePosition::Within);
    assert_eq!(position(&region, 4, 1), RelativePosition::Within);
    assert_eq!(position(&region, 6, 1), RelativePosition::Within);
    assert_eq!(position(&region, 6, 10), RelativePosition::Within);
    assert_eq!(position(&region, 6, 11), RelativePosition::After);
    assert_eq!(position(&region, 7, 1), RelativePosition::After);
}

#[test]
fn region_on_one_line() {
    let region = Region::new(4, 0, 4, 7);
    assert_eq!(position(&region, 3, 1), RelativePosition::Before);
    assert_eq!(position(&region, 4, 1), RelativePosition::Within);
    assert_eq!(position(&region, 4, 7), RelativePosition::Within);
    // on the first line only the first column is looked at
    assert_eq!(position(&region, 4, 8), RelativePosition::Within);
    assert_eq!(position(&region, 5, 1), RelativePosition::After);
    assert_eq!(position(&Region::new(0, 0, 0, 0), 1, 1), RelativePosition::After);
}

#[test]
fn region_on_two_lines() {
    let region = Region::new(4, 2, 5, 7);
    assert_eq!(position(&region, 4, 2), RelativePosition::Before);
    assert_eq!(position(&region, 4, 3), RelativePosition::Within);
    assert_eq!(position(&region, 5, 7), RelativePosition::Within);
    assert_eq!(position(&region, 5, 8), RelativePosition::After);
}

#[test]
fn regions_compare_by_their_bounds() {
    assert_eq!(Region::new(1, 2, 3, 4), Region::new(1, 2, 3, 4));
    assert_ne!(Region::new(1, 2, 3, 4), Region::new(1, 3, 3, 4));
}

#[test]
fn visitors_collect_regions_in_order() {
    let mut macros = MacroVisitor::new();
    assert_eq!(macros.spans().len(), 0);
    macros.visit_macro(Region::new(1, 0, 1, 9));
    macros.visit_macro(Region::new(3, 4, 5, 1));
    assert_eq!(macros.spans(), &[Region::new(1, 0, 1, 9), Region::new(3, 4, 5, 1)]);
    let mut stmts = StmtVisitor::new();
    assert_eq!(stmts.spans().len(), 0);
    stmts.visit_stmt(Region::new(2, 0, 2, 9));
    assert_eq!(stmts.spans(), &[Region::new(2, 0, 2, 9)]);
}
