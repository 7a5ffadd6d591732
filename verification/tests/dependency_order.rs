use block_graph::dependency_resolution::{DependsOn, Graph};

#[test]
fn simple_deps1() {
    let mut g = Graph::new_debug();
    let a = g.add("A");
    let b = g.add("B");
    g.specify_dependencies(vec![a.on(b)]);
    let order = g.calculate_order();
    assert_eq!(g.is_order_valid(&order), true);
    // a depends on b, so the order should be: B first, then A.
    assert_eq!(order[0].name, "B");
    assert_eq!(order[1].name, "A");
}

#[test]
fn simple_deps2() {
    let mut g = Graph::new_debug();
    let b = g.add("B");
    let a = g.add("A");
    g.specify_dependencies(a.on(b));
    let order = g.calculate_order();
    assert_eq!(g.is_order_valid(&order), true);
    // a depends on b, so the order should be: B first, then A.
    assert_eq!(order[0].name, "B");
    assert_eq!(order[1].name, "A");
}

#[test]
fn complex_deps1() {
    // a depends on B and C, so both B and C go before A.
    let mut g = Graph::new_debug();
    let c = g.add("C");
    let b = g.add("B");
    let a = g.add("A");
    g.specify_dependencies([a.on(c), a.on(b)]);
    let order = g.calculate_order();
    assert_eq!(g.is_order_valid(&order), true);
    assert_eq!(order[2].name, "A");
}

#[test]
fn complex_deps_invalid() {
    // a depends on B, B depends on C, C depends on A: no order is valid.
    let mut g = Graph::new_debug();
    let c = g.add("C");
    let b = g.add("B");
    let a = g.add("A");
    g.specify_dependencies([a.on(b), b.on(c), c.on(a)]);
    let order = g.calculate_order();
    assert_eq!(g.is_order_valid(&order), false);
}

#[test]
fn complex_deps2() {
    // a depends on B and C, B depends on D, C depends on E, D depends on E.
    let mut g = Graph::new_debug();
    let c = g.add("C");
    let b = g.add("B");
    let a = g.add("A");
    let e = g.add("E");
    let d = g.add("D");
    g.specify_dependencies(vec![d.on(e), a.on(c), c.on(e), b.on(d), a.on(b)]);
    let order = g.calculate_order();
    assert_eq!(g.is_order_valid(&order), true);
    // a should be last. e should be first.
    assert_eq!(order[4].name, "A");
    assert_eq!(order[0].name, "E");
}

#[test]
fn test_big() {
    let mut g = Graph::new_debug();
    let p_squaregridblock = g.add("SquareGridBlock");
    let p_lineblock = g.add("LineBlock");
    let p_randompointblock = g.add("RandomPointBlock");
    let p_ptextractblock1 = g.add("PtExtractBlock1");
    let p_ptextractblock2 = g.add("PtExtractBlock2");

    g.specify_dependencies(vec![
        p_lineblock.on(p_ptextractblock1),
        p_lineblock.on(p_ptextractblock2),
        p_ptextractblock1.on(p_randompointblock),
        p_ptextractblock2.on(p_randompointblock),
        p_randompointblock.on(p_squaregridblock),
    ]);

    let order = g.calculate_order();
    for i in order {
        println!("{:?}", i.name);
    }
}
