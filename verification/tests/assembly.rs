use psychopath::assembly::{AssemblyBuilder, InstanceType};

#[test]
fn instances_refer_to_named_data() {
    let mut b = AssemblyBuilder::new();
    b.add_object("teapot");
    b.add_object("floor");
    b.add_assembly("room");
    assert!(b.name_exists("floor"));
    assert!(b.name_exists("room"));
    assert!(!b.name_exists("lamp"));

    b.add_instance("floor", None);
    b.add_instance("room", Some(2));
    b.add_instance("teapot", Some(3));

    let inst = b.instances();
    assert_eq!(inst.len(), 3);
    assert!(matches!(inst[0].instance_type, InstanceType::Object));
    assert_eq!((inst[0].data_index, inst[0].id, inst[0].transform_indices), (1, 0, None));
    assert!(matches!(inst[1].instance_type, InstanceType::Assembly));
    assert_eq!((inst[1].data_index, inst[1].id, inst[1].transform_indices), (0, 1, Some((0, 2))));
    assert!(matches!(inst[2].instance_type, InstanceType::Object));
    assert_eq!((inst[2].data_index, inst[2].id, inst[2].transform_indices), (0, 2, Some((2, 5))));
}
