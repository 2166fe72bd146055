use mpflow_plotting::mesh::{
    find_fault, generate_mesh, generate_ports, incidence, triangles, winding_kept, IndexError,
    NormalSign, PortVertex, Triangle, Vertex,
};

fn nodes_of(vertices: &[Vertex]) -> Vec<usize> {
    vertices.iter().map(|v| v.node).collect()
}

#[test]
fn winding_rule_for_every_sign() {
    assert!(winding_kept(NormalSign::Negative, true));
    assert!(winding_kept(NormalSign::Zero, true));
    assert!(!winding_kept(NormalSign::Positive, true));
    assert!(!winding_kept(NormalSign::Undefined, true));
    assert!(!winding_kept(NormalSign::Negative, false));
    assert!(!winding_kept(NormalSign::Zero, false));
    assert!(winding_kept(NormalSign::Positive, false));
    assert!(!winding_kept(NormalSign::Undefined, false));
}

#[test]
fn upward_triangle_is_reversed_in_front_set() {
    let tris = triangles(3, &vec![vec![0, 1, 2]]).unwrap();
    let front = generate_mesh(&tris, &vec![NormalSign::Positive], true).unwrap();
    assert_eq!(
        front,
        vec![
            Vertex { node: 2, element: 0, flipped: true },
            Vertex { node: 1, element: 0, flipped: true },
            Vertex { node: 0, element: 0, flipped: true },
        ]
    );
}

#[test]
fn upward_triangle_keeps_order_in_back_set() {
    let tris = triangles(3, &vec![vec![0, 1, 2]]).unwrap();
    let back = generate_mesh(&tris, &vec![NormalSign::Positive], false).unwrap();
    assert_eq!(
        back,
        vec![
            Vertex { node: 0, element: 0, flipped: false },
            Vertex { node: 1, element: 0, flipped: false },
            Vertex { node: 2, element: 0, flipped: false },
        ]
    );
}

#[test]
fn downward_triangle_keeps_order_in_front_set() {
    let tris = vec![Triangle { a: 4, b: 7, c: 9 }];
    let front = generate_mesh(&tris, &vec![NormalSign::Negative], true).unwrap();
    assert_eq!(nodes_of(&front), vec![4, 7, 9]);
    assert!(front.iter().all(|v| !v.flipped));
    let back = generate_mesh(&tris, &vec![NormalSign::Negative], false).unwrap();
    assert_eq!(nodes_of(&back), vec![9, 7, 4]);
    assert!(back.iter().all(|v| v.flipped));
}

#[test]
fn level_triangle_counts_as_not_pointing_up() {
    let tris = vec![Triangle { a: 1, b: 2, c: 3 }];
    let front = generate_mesh(&tris, &vec![NormalSign::Zero], true).unwrap();
    assert_eq!(nodes_of(&front), vec![1, 2, 3]);
    let back = generate_mesh(&tris, &vec![NormalSign::Zero], false).unwrap();
    assert_eq!(nodes_of(&back), vec![3, 2, 1]);
}

#[test]
fn triangle_without_normal_is_reversed_in_both_sets() {
    let tris = vec![Triangle { a: 1, b: 2, c: 3 }];
    for face_up in [true, false] {
        let set = generate_mesh(&tris, &vec![NormalSign::Undefined], face_up).unwrap();
        assert_eq!(nodes_of(&set), vec![3, 2, 1]);
        assert!(set.iter().all(|v| v.flipped));
    }
}

#[test]
fn face_set_has_three_vertices_for_each_element() {
    let tris = triangles(5, &vec![vec![0, 1, 2], vec![2, 3, 4], vec![4, 0, 2]]).unwrap();
    let signs = vec![NormalSign::Negative, NormalSign::Positive, NormalSign::Negative];
    let front = generate_mesh(&tris, &signs, true).unwrap();
    assert_eq!(front.len(), 9);
    assert_eq!(nodes_of(&front), vec![0, 1, 2, 4, 3, 2, 4, 0, 2]);
    let elements: Vec<usize> = front.iter().map(|v| v.element).collect();
    assert_eq!(elements, vec![0, 0, 0, 1, 1, 1, 2, 2, 2]);
    let flipped: Vec<bool> = front.iter().map(|v| v.flipped).collect();
    assert_eq!(flipped, vec![false, false, false, true, true, true, false, false, false]);
}

#[test]
fn face_set_of_no_elements_is_empty() {
    assert_eq!(generate_mesh(&vec![], &vec![], true), Some(vec![]));
}

#[test]
fn face_set_needs_a_sign_for_each_element() {
    let tris = vec![Triangle { a: 0, b: 1, c: 2 }];
    assert_eq!(generate_mesh(&tris, &vec![], true), None);
    assert_eq!(generate_mesh(&tris, &vec![NormalSign::Zero, NormalSign::Zero], false), None);
}

#[test]
fn triangles_of_a_valid_element_list() {
    let found = triangles(4, &vec![vec![0, 1, 2], vec![3, 2, 1]]).unwrap();
    assert_eq!(found, vec![Triangle { a: 0, b: 1, c: 2 }, Triangle { a: 3, b: 2, c: 1 }]);
}

#[test]
fn triangles_of_an_empty_list() {
    assert_eq!(triangles(0, &vec![]), Ok(vec![]));
}

#[test]
fn triangles_rejects_rows_that_are_no_triangles() {
    assert_eq!(triangles(9, &vec![vec![0, 1, 2], vec![0, 1]]), Err(IndexError::NotTriangle { row: 1 }));
    assert_eq!(triangles(9, &vec![vec![0, 1, 2, 3]]), Err(IndexError::NotTriangle { row: 0 }));
    assert_eq!(triangles(9, &vec![vec![]]), Err(IndexError::NotTriangle { row: 0 }));
}

#[test]
fn triangles_rejects_indices_without_a_node() {
    assert_eq!(triangles(3, &vec![vec![0, 1, 3]]), Err(IndexError::Element { row: 0, column: 2 }));
    assert_eq!(triangles(3, &vec![vec![0, -1, 2]]), Err(IndexError::Element { row: 0, column: 1 }));
    assert_eq!(
        triangles(3, &vec![vec![0, 1, 2], vec![5, 7, 9]]),
        Err(IndexError::Element { row: 1, column: 0 })
    );
    assert_eq!(triangles(0, &vec![vec![0, 0, 0]]), Err(IndexError::Element { row: 0, column: 0 }));
}

#[test]
fn triangles_reports_the_first_bad_row() {
    assert_eq!(
        triangles(3, &vec![vec![0, 1, 2], vec![0, 9, 2], vec![1]]),
        Err(IndexError::Element { row: 1, column: 1 })
    );
}

#[test]
fn find_fault_accepts_the_mark_only_where_allowed() {
    let rows = vec![vec![0, 1], vec![-1, 2]];
    assert_eq!(find_fault(&rows, 3, true), None);
    assert_eq!(find_fault(&rows, 3, false), Some((1, 0)));
    assert_eq!(find_fault(&rows, 2, true), Some((1, 1)));
    assert_eq!(find_fault(&vec![vec![-2]], 3, true), Some((0, 0)));
    assert_eq!(find_fault(&vec![], 0, false), None);
    assert_eq!(find_fault(&vec![vec![], vec![]], 0, false), None);
}

#[test]
fn port_of_unused_slots_gives_no_vertex() {
    let edges = vec![vec![2, 5]];
    let ports = vec![vec![-1, -1]];
    assert_eq!(generate_ports(6, &edges, &ports), Ok(vec![]));
}

#[test]
fn single_port_with_one_edge_gives_two_reference_vertices() {
    let edges = vec![vec![2, 5]];
    let ports = vec![vec![0]];
    assert_eq!(
        generate_ports(6, &edges, &ports),
        Ok(vec![PortVertex { node: 2, reference: true }, PortVertex { node: 5, reference: true }])
    );
}

#[test]
fn only_the_first_port_is_the_reference() {
    let edges = vec![vec![0, 1], vec![1, 2], vec![2, 3, 4]];
    let ports = vec![vec![0, -1], vec![2, 1], vec![-1], vec![0]];
    let out = generate_ports(5, &edges, &ports).unwrap();
    assert_eq!(
        out,
        vec![
            PortVertex { node: 0, reference: true },
            PortVertex { node: 1, reference: true },
            PortVertex { node: 2, reference: false },
            PortVertex { node: 3, reference: false },
            PortVertex { node: 4, reference: false },
            PortVertex { node: 1, reference: false },
            PortVertex { node: 2, reference: false },
            PortVertex { node: 0, reference: false },
            PortVertex { node: 1, reference: false },
        ]
    );
}

#[test]
fn first_port_may_be_unused() {
    let edges = vec![vec![3, 4]];
    let ports = vec![vec![-1], vec![0]];
    assert_eq!(
        generate_ports(5, &edges, &ports),
        Ok(vec![PortVertex { node: 3, reference: false }, PortVertex { node: 4, reference: false }])
    );
}

#[test]
fn overlay_without_ports_is_empty() {
    assert_eq!(generate_ports(3, &vec![vec![0, 1]], &vec![]), Ok(vec![]));
    assert_eq!(generate_ports(3, &vec![], &vec![vec![], vec![-1]]), Ok(vec![]));
}

#[test]
fn overlay_rejects_an_edge_without_a_node() {
    let edges = vec![vec![0, 1], vec![1, 6]];
    assert_eq!(generate_ports(6, &edges, &vec![vec![0]]), Err(IndexError::Edge { row: 1, column: 1 }));
    assert_eq!(
        generate_ports(6, &vec![vec![-1, 0]], &vec![]),
        Err(IndexError::Edge { row: 0, column: 0 })
    );
}

#[test]
fn overlay_rejects_a_port_without_an_edge() {
    let edges = vec![vec![0, 1]];
    assert_eq!(generate_ports(2, &edges, &vec![vec![-1, 1]]), Err(IndexError::Port { row: 0, column: 1 }));
    assert_eq!(generate_ports(2, &edges, &vec![vec![0], vec![-2]]), Err(IndexError::Port { row: 1, column: 0 }));
}

#[test]
fn overlay_reports_edges_before_ports() {
    let edges = vec![vec![0, 7]];
    let ports = vec![vec![3]];
    assert_eq!(generate_ports(2, &edges, &ports), Err(IndexError::Edge { row: 0, column: 1 }));
}

#[test]
fn incidence_lists_the_elements_of_each_node() {
    let tris = triangles(5, &vec![vec![0, 1, 2], vec![2, 1, 3], vec![3, 0, 2]]).unwrap();
    let lists = incidence(5, &tris).unwrap();
    assert_eq!(lists, vec![vec![0, 2], vec![0, 1], vec![0, 1, 2], vec![1, 2], vec![]]);
}

#[test]
fn incidence_counts_a_node_once_for_each_corner() {
    let tris = vec![Triangle { a: 1, b: 1, c: 0 }, Triangle { a: 1, b: 0, c: 1 }];
    assert_eq!(incidence(2, &tris), Some(vec![vec![0, 1], vec![0, 0, 1, 1]]));
}

#[test]
fn incidence_of_a_mesh_without_elements() {
    assert_eq!(incidence(3, &vec![]), Some(vec![vec![], vec![], vec![]]));
    assert_eq!(incidence(0, &vec![]), Some(vec![]));
}

#[test]
fn incidence_needs_every_node_in_the_mesh() {
    assert_eq!(incidence(3, &vec![Triangle { a: 0, b: 1, c: 3 }]), None);
    assert_eq!(incidence(3, &vec![Triangle { a: 0, b: 1, c: 2 }, Triangle { a: 9, b: 1, c: 2 }]), None);
    assert_eq!(incidence(0, &vec![Triangle { a: 0, b: 0, c: 0 }]), None);
}
