use merkle::{Merkle, MerklePow2};

#[test]
fn build_merklepow2() {
    let data = vec![
        String::from("a"),
        String::from("b"),
        String::from("a"),
        String::from("a"),
    ];

    assert_eq!(MerklePow2::compute_root(data), String::from("abaa"));
}

#[test]
fn proof_merklepow2() {
    let data = vec![
        String::from("a"),
        String::from("b"),
        String::from("c"),
        String::from("d"),
        String::from("e"),
        String::from("f"),
        String::from("g"),
        String::from("h"),
    ];
    let tree = MerklePow2::new(data);
    let mut path: Vec<String> = Vec::new();
    let contains = tree.generate_proof(String::from("d"), &mut path);
    assert_eq!(
        path,
        vec![String::from("c"), String::from("ab"), String::from("efgh")]
    );
    assert!(contains);
}

#[test]
fn build_merkle() {
    let data = vec![
        String::from("a"),
        String::from("b"),
        String::from("a"),
        String::from("a"),
        String::from("c"),
        String::from("d"),
    ];
    let tree = Merkle::new(data);
    let correct_tree = Merkle {
        root: String::from("aacdabab"),
        subtrees: vec![
            None,
            Some(MerklePow2 {
                root: String::from("ab"),
                base: vec![String::from("a"), String::from("b")],
            }),
            Some(MerklePow2 {
                root: String::from("aacd"),
                base: vec![
                    String::from("a"),
                    String::from("a"),
                    String::from("c"),
                    String::from("d"),
                ],
            }),
        ],
        is_complete: false,
    };
    assert_eq!(tree, correct_tree);
}

#[test]
fn join() {
    let data1 = vec![
        String::from("a"),
        String::from("b"),
        String::from("c"),
        String::from("d"),
    ];
    let data2 = vec![
        String::from("e"),
        String::from("f"),
        String::from("g"),
        String::from("h"),
    ];
    let mut tree1 = MerklePow2::new(data1);
    let tree2 = MerklePow2::new(data2);
    tree1.join(&tree2);
    assert_eq!(
        tree1,
        MerklePow2 {
            root: String::from("efghabcd"),
            base: vec![
                String::from("e"),
                String::from("f"),
                String::from("g"),
                String::from("h"),
                String::from("a"),
                String::from("b"),
                String::from("c"),
                String::from("d"),
            ]
        }
    );
}

#[test]
fn add_key() {
    let data1 = vec![String::from("a"), String::from("b")];
    let mut tree = Merkle::new(data1);
    tree.add_key(String::from("c"));
    tree.add_key(String::from("d"));
    tree.add_key(String::from("e"));
    tree.add_key(String::from("f"));
    assert_eq!(
        tree,
        Merkle::new(vec![
            String::from("e"),
            String::from("f"),
            String::from("a"),
            String::from("b"),
            String::from("c"),
            String::from("d")
        ])
    );
}

#[test]
fn proof_merkle() {
    let data = vec![
        String::from("m"),
        String::from("n"),
        String::from("i"),
        String::from("j"),
        String::from("k"),
        String::from("l"),
        String::from("a"),
        String::from("b"),
        String::from("c"),
        String::from("d"),
        String::from("e"),
        String::from("f"),
        String::from("g"),
        String::from("h"),
    ];
    let tree = Merkle::new(data);
    let path: Vec<String> = tree.membership_proof(String::from("d"));
    assert_eq!(
        path,
        vec![
            String::from("c"),
            String::from("ab"),
            String::from("efgh"),
            String::from("ijklmnmn"),
        ]
    );

    let tree2 = Merkle::new(vec![String::from("a")]);
    let path2 = tree2.membership_proof(String::from("b"));
    assert!(path2.is_empty());
}

#[test]
fn single_leaf_subtree_root() {
    let tree = MerklePow2::new(vec![String::from("x")]);
    assert_eq!(tree.root, String::from("x"));
    assert_eq!(tree.base, vec![String::from("x")]);
}

#[test]
fn four_leaf_root_formula() {
    // H(H(a||b) || H(c||d)) with the identity digest is plain concatenation
    let data = vec![
        String::from("a"),
        String::from("b"),
        String::from("c"),
        String::from("d"),
    ];
    assert_eq!(MerklePow2::compute_root(data), String::from("abcd"));
}

#[test]
fn subtree_proof_miss_leaves_path_untouched() {
    let data = vec![
        String::from("a"),
        String::from("b"),
        String::from("c"),
        String::from("d"),
    ];
    let tree = MerklePow2::new(data);
    let mut path: Vec<String> = Vec::new();
    let contains = tree.generate_proof(String::from("z"), &mut path);
    assert!(!contains);
    assert!(path.is_empty());
}

#[test]
fn empty_forest() {
    let tree = Merkle::new(Vec::new());
    assert_eq!(tree.get_root(), String::new());
    assert!(tree.is_complete);
    let path = tree.membership_proof(String::from("a"));
    assert!(path.is_empty());
}

#[test]
fn proof_of_sole_key_is_trimmed_to_empty() {
    // a one-key forest is complete, so the single proof element is dropped:
    // an empty proof here cannot be told apart from a miss
    let tree = Merkle::new(vec![String::from("a")]);
    let path = tree.membership_proof(String::from("a"));
    assert!(path.is_empty());
}

#[test]
fn complete_flag_transitions() {
    let mut tree = Merkle::new(vec![
        String::from("a"),
        String::from("b"),
        String::from("c"),
        String::from("d"),
    ]);
    assert!(tree.is_complete);
    tree.add_key(String::from("e"));
    assert!(!tree.is_complete);
    tree.add_key(String::from("f"));
    tree.add_key(String::from("g"));
    tree.add_key(String::from("h"));
    assert!(tree.is_complete);
    assert_eq!(tree.get_root(), String::from("abcdefgh"));
}

#[test]
fn incremental_root_matches_batch_root() {
    // growing one key at a time commits to the same root as batch
    // construction from the forest's own key order
    let mut grown = Merkle::new(vec![String::from("a")]);
    grown.add_key(String::from("b"));
    grown.add_key(String::from("c"));
    let batch = Merkle::new(vec![
        String::from("c"),
        String::from("a"),
        String::from("b"),
    ]);
    assert_eq!(grown, batch);
    assert_eq!(grown.get_root(), batch.get_root());
}

#[test]
fn forest_proof_for_key_in_top_slot() {
    // keys split into slots [ {e}, {a,b,c,d} ]; the proof for "a" crosses
    // both the subtree and the smaller slot's aggregate
    let tree = Merkle::new(vec![
        String::from("e"),
        String::from("a"),
        String::from("b"),
        String::from("c"),
        String::from("d"),
    ]);
    let path = tree.membership_proof(String::from("a"));
    assert_eq!(
        path,
        vec![String::from("b"), String::from("cd"), String::from("eeee")]
    );
}

#[test]
fn duplicate_keys_match_first_occurrence() {
    let data = vec![
        String::from("a"),
        String::from("a"),
        String::from("b"),
        String::from("c"),
    ];
    let tree = MerklePow2::new(data);
    let mut path: Vec<String> = Vec::new();
    let contains = tree.generate_proof(String::from("a"), &mut path);
    assert!(contains);
    // only the first pair holding "a" contributes a sibling
    assert_eq!(path, vec![String::from("a"), String::from("bc")]);
}

#[test]
fn add_key_to_empty_forest() {
    let mut tree = Merkle::new(Vec::new());
    tree.add_key(String::from("a"));
    assert_eq!(tree, Merkle::new(vec![String::from("a")]));
    assert_eq!(tree.get_root(), String::from("a"));
    assert!(tree.is_complete);
}
