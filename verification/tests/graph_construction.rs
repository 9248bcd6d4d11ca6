use markovgen::{Edge, GraphConstructor, Vertex};

const SEQUENCE_START: char = '\x01';
const SEQUENCE_END: char = '\x02';

fn register_word(constructor: &mut GraphConstructor, word: &str) {
    let mut last = SEQUENCE_START;
    for c in word.chars() {
        constructor.register_sequence(last, c);
        last = c;
    }
    constructor.register_sequence(last, SEQUENCE_END);
}

#[test]
fn edge_weights_sum_to_total_exactly() {
    let mut constructor = GraphConstructor::new();
    for word in ["Tim", "Tom", "Thomas"] {
        register_word(&mut constructor, word);
    }
    let graph = constructor.construct();
    for i in 0..graph.vertex_count() {
        let mut sum: u64 = 0;
        for j in 0..graph.edge_count_at(i) {
            sum += graph.edge_at(i, j).weight;
        }
        assert_eq!(sum, graph.total_at(i));
        if graph.edge_count_at(i) > 0 {
            assert!(graph.total_at(i) >= 1);
        }
    }
}

#[test]
fn registered_pair_has_edge_to_successor() {
    let mut constructor = GraphConstructor::new();
    for word in ["Tim", "Tom"] {
        register_word(&mut constructor, word);
    }
    let graph = constructor.construct();
    let pairs = [
        (SEQUENCE_START, 'T'),
        ('T', 'i'),
        ('i', 'm'),
        ('m', SEQUENCE_END),
        ('T', 'o'),
        ('o', 'm'),
    ];
    for (current, next) in pairs {
        let i = graph
            .find_position(current)
            .expect("registered source symbol must have a vertex");
        let mut found = false;
        for j in 0..graph.edge_count_at(i) {
            let e = graph.edge_at(i, j);
            if graph.value_at(e.vertex_index) == next {
                found = true;
            }
        }
        assert!(found, "no edge from {current:?} to {next:?}");
    }
}

#[test]
fn repeated_registration_increases_relative_weight() {
    // One observation each of (a -> b) and (a -> c).
    let mut once = GraphConstructor::new();
    once.register_sequence('a', 'b');
    once.register_sequence('a', 'c');
    let g1 = once.construct();

    // Two more observations of (a -> b).
    let mut thrice = GraphConstructor::new();
    thrice.register_sequence('a', 'b');
    thrice.register_sequence('a', 'c');
    thrice.register_sequence('a', 'b');
    thrice.register_sequence('a', 'b');
    let g2 = thrice.construct();

    let weight_of = |g: &markovgen::Graph, from: char, to: char| -> (u64, u64) {
        let i = g.find_position(from).unwrap();
        for j in 0..g.edge_count_at(i) {
            let e = g.edge_at(i, j);
            if g.value_at(e.vertex_index) == to {
                return (e.weight, g.total_at(i));
            }
        }
        panic!("edge not found");
    };

    let (b1, t1) = weight_of(&g1, 'a', 'b');
    let (b2, t2) = weight_of(&g2, 'a', 'b');
    // Probability of the pair strictly increased: b2/t2 > b1/t1.
    assert!((b2 as u128) * (t1 as u128) > (b1 as u128) * (t2 as u128));
    let (c1, t1b) = weight_of(&g1, 'a', 'c');
    let (c2, t2b) = weight_of(&g2, 'a', 'c');
    assert_eq!(t1, t1b);
    assert_eq!(t2, t2b);
    // Probability of the competitor strictly decreased.
    assert!((c2 as u128) * (t1 as u128) < (c1 as u128) * (t2 as u128));
    assert_eq!((b1, c1, t1), (1, 1, 2));
    assert_eq!((b2, c2, t2), (3, 1, 4));
}

#[test]
fn successor_only_symbol_becomes_terminal_vertex() {
    let mut constructor = GraphConstructor::new();
    register_word(&mut constructor, "ab");
    // SEQUENCE_END and 'b' appear only as successors? 'b' is a source of the
    // final transition, so only SEQUENCE_END is terminal here.
    let graph = constructor.construct();
    let t = graph.find_position(SEQUENCE_END).unwrap();
    assert_eq!(graph.edge_count_at(t), 0);
    assert_eq!(graph.total_at(t), 0);
    // Terminal vertices come after all source vertices.
    let sources = [SEQUENCE_START, 'a', 'b'];
    for s in sources {
        assert!(graph.find_position(s).unwrap() < t);
    }
}

#[test]
fn edges_sorted_ascending_by_weight() {
    let mut constructor = GraphConstructor::new();
    constructor.register_sequence('a', 'b');
    constructor.register_sequence('a', 'c');
    constructor.register_sequence('a', 'c');
    constructor.register_sequence('a', 'd');
    constructor.register_sequence('a', 'd');
    constructor.register_sequence('a', 'd');
    let graph = constructor.construct();
    let i = graph.find_position('a').unwrap();
    assert_eq!(graph.edge_count_at(i), 3);
    let mut last = 0u64;
    for j in 0..graph.edge_count_at(i) {
        let e = graph.edge_at(i, j);
        assert!(e.weight >= last);
        last = e.weight;
    }
    assert_eq!(graph.total_at(i), 6);
}

#[test]
fn empty_training_data_gives_empty_graph() {
    let constructor = GraphConstructor::new();
    let graph = constructor.construct();
    assert_eq!(graph.vertex_count(), 0);
}

#[test]
fn from_vertices_accepts_well_formed_input() {
    let vertices = vec![
        Vertex {
            value: 'a',
            edges: vec![Edge { vertex_index: 1, weight: 1 }],
            total: 1,
        },
        Vertex { value: 'b', edges: Vec::new(), total: 0 },
    ];
    let graph = markovgen::Graph::from_vertices(vertices).expect("valid graph");
    assert_eq!(graph.vertex_count(), 2);
    assert_eq!(graph.value_at(0), 'a');
    assert_eq!(graph.edge_at(0, 0).vertex_index, 1);
}

#[test]
fn from_vertices_rejects_malformed_input() {
    // Edge target out of bounds.
    let bad_target = vec![Vertex {
        value: 'a',
        edges: vec![Edge { vertex_index: 7, weight: 1 }],
        total: 1,
    }];
    assert!(markovgen::Graph::from_vertices(bad_target).is_none());

    // Stored total disagrees with the weights.
    let bad_total = vec![Vertex {
        value: 'a',
        edges: vec![Edge { vertex_index: 0, weight: 1 }],
        total: 2,
    }];
    assert!(markovgen::Graph::from_vertices(bad_total).is_none());

    // Zero weight.
    let bad_weight = vec![Vertex {
        value: 'a',
        edges: vec![Edge { vertex_index: 0, weight: 0 }],
        total: 0,
    }];
    assert!(markovgen::Graph::from_vertices(bad_weight).is_none());

    // Edges not sorted ascending by weight.
    let unsorted = vec![Vertex {
        value: 'a',
        edges: vec![
            Edge { vertex_index: 0, weight: 2 },
            Edge { vertex_index: 0, weight: 1 },
        ],
        total: 3,
    }];
    assert!(markovgen::Graph::from_vertices(unsorted).is_none());

    // Duplicate symbols.
    let duplicate = vec![
        Vertex { value: 'a', edges: Vec::new(), total: 0 },
        Vertex { value: 'a', edges: Vec::new(), total: 0 },
    ];
    assert!(markovgen::Graph::from_vertices(duplicate).is_none());
}

#[test]
fn terminal_vertices_appear_in_first_discovery_order() {
    let mut constructor = GraphConstructor::new();
    constructor.register_sequence('a', 'x');
    constructor.register_sequence('a', 'y');
    constructor.register_sequence('b', 'y');
    constructor.register_sequence('b', 'z');
    let graph = constructor.construct();
    // Sources 'a' and 'b' come first, in registration order; the terminals
    // 'x', 'y', 'z' follow in the order they were first observed.
    assert_eq!(graph.vertex_count(), 5);
    assert_eq!(graph.value_at(0), 'a');
    assert_eq!(graph.value_at(1), 'b');
    assert_eq!(graph.value_at(2), 'x');
    assert_eq!(graph.value_at(3), 'y');
    assert_eq!(graph.value_at(4), 'z');
    for t in 2..5 {
        assert_eq!(graph.edge_count_at(t), 0);
    }
}
