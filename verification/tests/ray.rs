use psychopath::ray::RayStack;

#[test]
fn ray_stack_tasks_and_lanes() {
    let mut rs = RayStack::new();
    assert!(rs.is_empty());
    rs.ensure_lane_count(2);
    rs.push_ray_index(5, 0);
    rs.push_ray_index(6, 0);
    rs.push_ray_index(7, 1);
    rs.push_lanes_to_tasks(&[0, 1]);
    assert!(!rs.is_empty());

    // The last lane pushed is the next task.
    assert_eq!(rs.ray_count_in_next_task(), 1);
    assert_eq!(rs.next_task_ray_idx(0), 7);

    // Send the ray to lane 0.
    rs.pop_do_next_task(2, |_r: usize| ([0u8; 8], 1usize));
    assert_eq!(rs.ray_count_in_next_task(), 2);
    assert_eq!(rs.next_task_ray_idx(0), 5);
    assert_eq!(rs.next_task_ray_idx(1), 6);

    // The ray added to lane 0 waits beyond the task; make it a task.
    rs.push_lanes_to_tasks(&[0, 1]);
    assert_eq!(rs.ray_count_in_next_task(), 1);
    assert_eq!(rs.next_task_ray_idx(0), 7);

    // Drop the ray: no lanes.
    rs.pop_do_next_task(2, |_r: usize| ([0u8; 8], 0usize));
    assert_eq!(rs.ray_count_in_next_task(), 2);

    // Keep both rays in their own lane and add them to lane 1 too.
    rs.pop_do_next_task(3, |_r: usize| ([0u8, 1, 0, 0, 0, 0, 0, 0], 2usize));
    assert!(rs.is_empty());
    rs.push_lanes_to_tasks(&[1, 0, 2]);
    assert_eq!(rs.ray_count_in_next_task(), 2);
    assert_eq!(rs.next_task_ray_idx(0), 5);
    assert_eq!(rs.next_task_ray_idx(1), 6);

    rs.clear();
    assert!(rs.is_empty());
    rs.push_ray_index(9, 2);
    rs.push_lanes_to_tasks(&[0, 1, 2]);
    assert_eq!(rs.ray_count_in_next_task(), 1);
    assert_eq!(rs.next_task_ray_idx(0), 9);
}

#[test]
fn ray_index_kept_to_sixteen_bits() {
    let mut rs = RayStack::new();
    rs.ensure_lane_count(1);
    rs.push_ray_index(65536 + 3, 0);
    rs.push_lanes_to_tasks(&[0]);
    assert_eq!(rs.next_task_ray_idx(0), 3);
}
