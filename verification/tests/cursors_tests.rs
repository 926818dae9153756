use sapling::cursors::Cursors;

fn cur(children: Vec<(usize, Cursors)>) -> Cursors {
    Cursors::with_children(children)
}

#[test]
fn is_cursor() {
    assert!(cur(vec![]).is_cursor());
    assert!(!cur(vec![(0, cur(vec![]))]).is_cursor());
}

#[test]
fn move_up() {
    fn check(mut cs_before: Cursors, levels: usize, cs_after: Cursors) {
        cs_before.move_up(levels);
        assert_eq!(cs_before, cs_after);
    }

    check(cur(vec![]), 1, cur(vec![])); // The root can't be moved up
    check(cur(vec![]), 3, cur(vec![])); // The root can't be moved up
    check(cur(vec![(0, cur(vec![]))]), 1, cur(vec![]));
    // Merging two nodes together
    check(cur(vec![(0, cur(vec![])), (1, cur(vec![]))]), 1, cur(vec![]));
    // Check node merging at different heights
    check(
        cur(vec![(0, cur(vec![])), (1, cur(vec![(4, cur(vec![(1, cur(vec![]))]))]))]),
        1,
        cur(vec![]),
    );
    check(
        cur(vec![
            (0, cur(vec![(1, cur(vec![(1, cur(vec![]))]))])),
            (1, cur(vec![(4, cur(vec![(1, cur(vec![]))]))])),
        ]),
        2,
        cur(vec![(0, cur(vec![])), (1, cur(vec![]))]),
    );
    check(
        cur(vec![
            (0, cur(vec![(1, cur(vec![(1, cur(vec![]))]))])),
            (1, cur(vec![(4, cur(vec![(1, cur(vec![]))]))])),
        ]),
        3,
        cur(vec![]),
    );
}

#[test]
fn move_up_caps_at_the_top() {
    // A cursor one level down that moves up three levels stops at the top node
    let mut cs = cur(vec![(0, cur(vec![]))]);
    cs.move_up(3);
    assert_eq!(cs, cur(vec![]));
    // Moving up by zero levels changes nothing
    let mut cs = cur(vec![(2, cur(vec![])), (5, cur(vec![(1, cur(vec![]))]))]);
    cs.move_up(0);
    assert_eq!(cs, cur(vec![(2, cur(vec![])), (5, cur(vec![(1, cur(vec![]))]))]));
    assert!(Cursors::cursor().is_cursor());
}
