use my_webgpu_app::sim::paper_sim::normalise_edge;

#[test]
fn normalise_edge_orders_the_pair() {
    assert_eq!(normalise_edge(3, 7), (3, 7));
    assert_eq!(normalise_edge(7, 3), (3, 7));
    assert_eq!(normalise_edge(5, 5), (5, 5));
}
