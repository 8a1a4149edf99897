use atlaswiki::adjacency::gather;
use atlaswiki::graph::KnowledgeGraph;
use atlaswiki::parser::MarkdownParser;
use atlaswiki::rng::FastRng;
use atlaswiki::topology::{
    context_pairs, count_pairs, negative_table, occurrences, table_size, Node2Vec, Node2VecConfig,
};

fn names(n: &[&str]) -> Vec<String> {
    n.iter().map(|s| s.to_string()).collect()
}

fn triangle(config: Node2VecConfig) -> Node2Vec {
    Node2Vec::from_edges(
        names(&["Alpha", "Beta", "Gamma", "Lone"]),
        &vec![
            (0, 1, 1_000_000),
            (1, 2, 1_000_000),
            (2, 0, 3_000_000),
            (3, 3, 1_000_000),
            (0, 9, 1_000_000),
        ],
        config,
    )
}

#[test]
fn the_walk_generator_is_reproducible() {
    let mut rng = FastRng::seed_from_u64(42);
    assert_eq!(rng.next_u64(), 15021278609987233951);
    assert_eq!(rng.next_u64(), 5881210131331364753);
    let mut rng = FastRng::seed_from_u64(42);
    assert_eq!(rng.gen_range(1), 0);
    assert_eq!(rng.gen_range(0), 0);
    assert_eq!(rng.gen_range(10), 1);
    assert_eq!(rng.gen_range(10), 3);
    assert_eq!(rng.gen_share(), 16507004);
}

#[test]
fn links_count_from_both_sides() {
    let rows = gather(
        3,
        &vec![(0, 1, 250_000), (1, 0, 800_000), (2, 1, 0), (1, 1, 9_900_000), (0, 7, 500_000)],
    );
    assert_eq!(rows[0], vec![(1, 1_050_000)]);
    assert_eq!(rows[1], vec![(0, 1_050_000), (2, 100_000)]);
    assert_eq!(rows[2], vec![(1, 100_000)]);
}

#[test]
fn walks_follow_links() {
    let mut config = Node2VecConfig::default();
    config.walk_length = 8;
    let model = triangle(config);
    let mut rng = FastRng::seed_from_u64(7);
    assert_eq!(model.node2vec_walk(0, &mut rng), vec![0, 1, 0, 2, 0, 2, 0, 2]);
    assert_eq!(model.node2vec_walk(3, &mut rng), vec![3]);
    let again = FastRng::seed_from_u64(7).next_u64();
    assert_eq!(again, FastRng::seed_from_u64(7).next_u64());
}

#[test]
fn short_walks_do_not_move() {
    let mut config = Node2VecConfig::default();
    config.walk_length = 1;
    let model = triangle(config);
    let mut rng = FastRng::seed_from_u64(7);
    assert_eq!(model.node2vec_walk(1, &mut rng), vec![1]);
}

#[test]
fn every_node_starts_a_walk_in_each_round() {
    let mut config = Node2VecConfig::default();
    config.walk_length = 4;
    config.walks_per_node = 2;
    let model = triangle(config);
    let walks = model.generate_walks(&mut FastRng::seed_from_u64(5));
    let want: Vec<Vec<usize>> = vec![
        vec![3],
        vec![1, 0, 2, 0],
        vec![0, 2, 0, 2],
        vec![2, 1, 2, 1],
        vec![0, 2, 0, 2],
        vec![1, 0, 2, 0],
        vec![3],
        vec![2, 0, 2, 0],
    ];
    assert_eq!(walks, want);
    let none = Node2Vec::new(config).generate_walks(&mut FastRng::seed_from_u64(5));
    assert!(none.is_empty());
}

#[test]
fn defaults_of_the_model() {
    let c = Node2VecConfig::default();
    assert_eq!((c.p, c.q), (1_000_000, 1_000_000));
    assert_eq!((c.dimensions, c.walk_length, c.walks_per_node), (32, 20, 10));
    assert_eq!((c.window_size, c.negative_samples, c.epochs), (3, 5, 5));
    assert_eq!(c.seed, None);
}

#[test]
fn names_are_found_as_given_or_in_any_case() {
    let model = Node2Vec::from_embeddings(names(&["Alpha", "beta", "ALPHA"]), Node2VecConfig::default());
    assert_eq!(model.find("Alpha"), Some(0));
    assert_eq!(model.find("  [[ALPHA]] "), Some(2));
    assert_eq!(model.find("alpha"), Some(2));
    assert_eq!(model.find("BETA"), Some(1));
    assert_eq!(model.find("delta"), None);
    assert_eq!(model.node_count(), 3);
    assert_eq!(model.node_names()[1], "beta");
}

#[test]
fn the_most_similar_notes_come_first() {
    let model = triangle(Node2VecConfig::default());
    let near = model.most_topologically_similar("[[alpha]]", &vec![99, 5, 7, 7], 2);
    assert_eq!(near, vec![("Gamma".to_string(), 7), ("Lone".to_string(), 7)]);
    assert!(model.most_topologically_similar("alpha", &vec![99, 5, 7, 7], 0).is_empty());
    assert!(model.most_topologically_similar("nobody", &vec![99, 5, 7, 7], 3).is_empty());
    assert!(model.most_topologically_similar("Lone", &vec![99, 5], 3).is_empty());
}

#[test]
fn a_graph_becomes_neighbourhoods() {
    let parser = MarkdownParser::new();
    let docs = vec![
        parser.parse_file("a.md", "# A\n[[B]] and ![[B]]"),
        parser.parse_file("b.md", "# B\n[[A]]"),
    ];
    let graph = KnowledgeGraph::from_documents(&docs);
    assert_eq!(graph.weighted_edges(), vec![(0, 1, 1_000_000), (0, 1, 2_000_000), (1, 0, 1_000_000)]);
    let model = Node2Vec::from_knowledge_graph(&graph, Node2VecConfig::default());
    assert_eq!(model.node_names(), &names(&["A", "B"]));
    let mut rng = FastRng::seed_from_u64(1);
    assert_eq!(model.node2vec_walk(0, &mut rng)[..4], [0, 1, 0, 1]);
}

#[test]
fn pairs_within_the_window() {
    assert_eq!(context_pairs(&vec![4, 5, 6], 1), vec![(4, 5), (5, 4), (5, 6), (6, 5)]);
    assert_eq!(context_pairs(&vec![4, 5, 6], usize::MAX).len(), 6);
    assert!(context_pairs(&vec![4, 5, 6], 0).is_empty());
    assert_eq!(count_pairs(&vec![vec![4, 5, 6], vec![1], vec![2, 3]], 1), 6);
}

#[test]
fn nodes_are_counted_and_laid_out() {
    assert_eq!(occurrences(&vec![vec![0, 2, 0], vec![2], vec![9]], 3), vec![2, 0, 2]);
    assert_eq!(table_size(7), 100_000);
    assert_eq!(table_size(20_000), 200_000);
    let mut rng = FastRng::seed_from_u64(42);
    let table = negative_table(&vec![2, 0, 1], 5, &mut rng);
    assert_eq!(table[..3], [0, 0, 2]);
    assert_eq!(table.len(), 5);
    assert_eq!(table[3], (15021278609987233951u64 % 3) as usize);
    assert_eq!(negative_table(&vec![2, 0, 1], 1, &mut rng), vec![0, 0, 2]);
}
