use sr_core::blt_graph::BltGraph;
use sr_core::graph::Graph;
use std::cmp::max;

fn code_to_pair(c: u64) -> (usize, usize) {
    ((c >> 32) as usize, (c & 0xFFFF_FFFF) as usize)
}

fn codes_to_pairs(codes: &Vec<u64>) -> Vec<(usize, usize)> {
    codes.iter().map(|&c| code_to_pair(c)).collect()
}

#[test]
fn test_999000_550_small_diff() {
    test_general(999000, 500);
}

#[test]
fn test_0_500000_full_sync() {
    test_general(0, 500000);
}

fn test_general(common: usize, one_side: usize) {
    let mut g = Graph::new(1000000);
    let mut rng = rand::rng();
    g.add_random_edges(common, &mut rng);

    let mut a = g.clone();
    a.add_random_edges(one_side, &mut rng);
    let mut b = g.clone();
    b.add_random_edges(one_side, &mut rng);

    let mut blt_a = BltGraph::new();
    let mut blt_b = BltGraph::new();

    let a_codes: Vec<u64> = a.edges.iter().copied().collect();
    blt_a.add_edges(&a_codes);
    let b_codes: Vec<u64> = b.edges.iter().copied().collect();
    blt_b.add_edges(&b_codes);

    // The ladder is exchanged starting from level 10; each level is one
    // round trip, and each miss doubles the sketch size.
    for i in 10..20 {
        if blt_b.blts[i].capacity > max(a.edges.len(), b.edges.len()) / 10 {
            // The sketch would be larger than a tenth of the sets: fall
            // back to a full exchange in two round trips.

            // Alice sends her full list of surrogates to Bob.
            let hashes_from_a: Vec<u64> =
                a.edges.iter().map(|&c| blt_a.hash_of_item(c)).collect();

            // Bob learns which surrogates he lacks,
            let (_, edges_b_needs) = blt_b.split(&hashes_from_a);
            // and responds with his own surrogate list.
            let hashes_from_b: Vec<u64> =
                b.edges.iter().map(|&c| blt_b.hash_of_item(c)).collect();

            // Alice learns which surrogates she lacks.
            let (_, edges_a_needs) = blt_a.split(&hashes_from_b);

            // Alice sends the edges Bob is missing and Bob applies them.
            let edges_for_b = blt_a.get_edges(&edges_b_needs);
            b.add_edges(&codes_to_pairs(&edges_for_b));
            blt_b.add_edges(&edges_for_b);

            // Bob returns the edges Alice asked for and she applies them.
            let edges_for_a = blt_b.get_edges(&edges_a_needs);
            a.add_edges(&codes_to_pairs(&edges_for_a));
            blt_a.add_edges(&edges_for_a);
            break;
        }

        // One round trip: Alice receives Bob's sketch at this level,
        let mut bob_response = blt_b.blts[i].clone();

        // merges it with her own,
        bob_response.merge(&blt_a.blts[i]);

        // and peels the merge: on success the result is the symmetric
        // difference of the two edge sets, as surrogates.
        let (res, success) = bob_response.try_recover();

        let (edges_for_b, edges_a_needs) = blt_a.split(&res);

        // Alice sends the edges Bob lacks and he applies them.
        b.add_edges(&codes_to_pairs(&edges_for_b));
        blt_b.add_edges(&edges_for_b);

        // Bob sends the edges Alice asked for and she applies them.
        let edges_for_a = blt_b.get_edges(&edges_a_needs);
        a.add_edges(&codes_to_pairs(&edges_for_a));
        blt_a.add_edges(&edges_for_a);

        if success {
            break;
        }
    }
    assert_eq!(a.edges.len(), b.edges.len());
    assert!(a.edges.len() as f64 >= common as f64 + 1.9 * (one_side as f64));
}
