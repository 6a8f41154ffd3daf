//! ECS components without floating-point data.

use velos::components::Route;

#[test]
fn route_reports_next_node_and_destination() {
    let route = Route { path: vec![4, 7, 9], current_step: 1 };
    assert_eq!(route.next_node_and_destination(), Some((7, 9)));
    let done = Route { path: vec![4, 7, 9], current_step: 3 };
    assert_eq!(done.next_node_and_destination(), None);
    let empty = Route { path: vec![], current_step: 0 };
    assert_eq!(empty.next_node_and_destination(), None);
}
