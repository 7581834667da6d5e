//! Tabs.

use comma::tabs::Tabs;

fn tabs(n: usize) -> Tabs<i32> {
    let mut tabs = Tabs::new();
    for i in 0..n {
        tabs.push(i as i32);
    }
    tabs
}

#[test]
fn push_activates_new_tab() {
    let mut tabs = Tabs::new();
    tabs.push(1);
    tabs.push(2);
    assert_eq!(tabs.active(), Some(&2));
    assert_eq!(tabs.active_index(), 1);
}

#[test]
fn close_adjusts_active() {
    let mut tabs = tabs(3);
    tabs.switch(2);
    tabs.close(2); // close active at the end: active moves back
    assert_eq!(tabs.active(), Some(&1));

    tabs.close(0); // close before active: active tab stays the same
    assert_eq!(tabs.active(), Some(&1));

    tabs.close(0); // closing the last tab empties the collection
    assert!(tabs.is_empty());
    assert_eq!(tabs.active(), None);
}

#[test]
fn out_of_bounds_ops_are_noops() {
    let mut tabs = tabs(2);
    tabs.switch(5);
    assert_eq!(tabs.active_index(), 1);
    tabs.close(5);
    assert_eq!(tabs.len(), 2);
}

#[test]
fn closing_keeps_the_active_tab() {
    let mut tabs = tabs(4);
    tabs.switch(2);
    tabs.close(0); // before the active tab
    assert_eq!(tabs.active(), Some(&2));
    tabs.close(2); // after it
    assert_eq!(tabs.active(), Some(&2));
    tabs.close(1); // itself, at the end
    assert_eq!(tabs.active(), Some(&1));
    tabs.push(7);
    tabs.push(8);
    tabs.switch(1);
    tabs.close(1); // itself, in the middle: the next one takes its place
    assert_eq!(tabs.active(), Some(&8));
}

#[test]
fn tabs_can_be_changed_in_place() {
    let mut tabs = tabs(3);
    *tabs.active_mut().unwrap() = 20;
    *tabs.get_mut(0).unwrap() = 10;
    assert!(tabs.get_mut(3).is_none());
    assert_eq!((tabs.get(0), tabs.get(1), tabs.get(2), tabs.get(3)), (Some(&10), Some(&1), Some(&20), None));
    assert!(Tabs::<i32>::new().active_mut().is_none());
}
