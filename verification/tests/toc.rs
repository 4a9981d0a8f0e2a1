use ebook_reader::toc::TocState;

#[test]
fn toggle_twice_restores() {
    let mut t = TocState::default();
    assert!(!t.visible);
    t.toggle();
    assert!(t.visible);
    t.toggle();
    assert!(!t.visible);
    assert_eq!(t.selected, 0);
}

#[test]
fn moves_stay_in_list() {
    let mut t = TocState { visible: true, selected: 0 };
    t.move_up();
    assert_eq!(t.selected, 0);
    t.move_down(3);
    t.move_down(3);
    assert_eq!(t.selected, 2);
    t.move_down(3);
    assert_eq!(t.selected, 2);
    t.move_up();
    assert_eq!(t.selected, 1);
    t.move_down(0);
    assert_eq!(t.selected, 1);
}
