use gitgov_rs::git::{Base, BuildError, CommitBuilder, Listed, ObjectId, Signature, MODE_FILE, MODE_TREE};

fn id(n: u8) -> ObjectId {
    ObjectId { bytes: [n; 20] }
}

#[test]
fn later_write_to_the_same_path_wins() {
    let mut builder = CommitBuilder::new(None);
    assert_eq!(builder.add_to_tree("a/b.txt", id(1), MODE_FILE), Ok(()));
    assert_eq!(builder.add_to_tree("a/b.txt", id(2), MODE_FILE), Ok(()));
    let (path, list) = builder.next_open().unwrap();
    assert_eq!(path, vec!["a".to_string()]);
    assert_eq!(list, vec![Listed { name: "b.txt".to_string(), id: id(2), mode: MODE_FILE }]);
    assert!(builder.close(&path, id(3)));
    let (path, list) = builder.next_open().unwrap();
    assert!(path.is_empty());
    assert_eq!(list, vec![Listed { name: "a".to_string(), id: id(3), mode: MODE_TREE }]);
    assert!(builder.close(&path, id(4)));
    assert!(builder.next_open().is_none());
    let author = Signature { name: "A".to_string(), email: "a@example.org".to_string() };
    let commit = builder.commit(&author, &author, "message").unwrap();
    assert_eq!(commit.tree, id(4));
    assert_eq!(commit.parent, None);
    assert_eq!(commit.message, "message");
}

#[test]
fn file_on_the_way_blocks_the_path() {
    let mut builder = CommitBuilder::new(Some(Base { commit: id(9), tree: id(8) }));
    assert_eq!(
        builder.add_to_tree("a/b/c.txt", id(1), MODE_FILE),
        Err(BuildError::Unread { depth: 0, id: id(8) })
    );
    let root = vec![Listed { name: "a".to_string(), id: id(7), mode: MODE_FILE }];
    assert!(builder.load("a/b/c.txt", 0, &root));
    assert_eq!(
        builder.add_to_tree("a/b/c.txt", id(1), MODE_FILE),
        Err(BuildError::PathCollision { depth: 1 })
    );
    let (path, list) = builder.next_open().unwrap();
    assert!(path.is_empty());
    assert_eq!(list, root);
}

#[test]
fn file_in_the_base_blocks_the_path_below_it() {
    let mut builder = CommitBuilder::new(Some(Base { commit: id(9), tree: id(8) }));
    let root = vec![Listed { name: "a".to_string(), id: id(7), mode: MODE_FILE }];
    assert_eq!(
        builder.add_to_tree("a/b.txt", id(1), MODE_FILE),
        Err(BuildError::Unread { depth: 0, id: id(8) })
    );
    assert!(builder.load("a/b.txt", 0, &root));
    assert_eq!(
        builder.add_to_tree("a/b.txt", id(1), MODE_FILE),
        Err(BuildError::PathCollision { depth: 1 })
    );
    let (path, list) = builder.next_open().unwrap();
    assert!(path.is_empty());
    assert_eq!(list, root);
    assert!(builder.close(&path, id(8)));
    let author = Signature { name: "A".to_string(), email: "a@example.org".to_string() };
    assert_eq!(builder.commit(&author, &author, "m").unwrap().tree, id(8));
}

#[test]
fn path_is_split_at_every_separator() {
    let mut builder = CommitBuilder::new(None);
    assert_eq!(builder.add_to_tree("top.txt", id(1), MODE_FILE), Ok(()));
    assert_eq!(builder.add_to_tree("a/b/c.txt", id(2), MODE_FILE), Ok(()));
    let (path, list) = builder.next_open().unwrap();
    assert_eq!(path, vec!["a".to_string(), "b".to_string()]);
    assert_eq!(list, vec![Listed { name: "c.txt".to_string(), id: id(2), mode: MODE_FILE }]);
    assert!(builder.close(&path, id(3)));
    let (path, list) = builder.next_open().unwrap();
    assert_eq!(path, vec!["a".to_string()]);
    assert_eq!(list, vec![Listed { name: "b".to_string(), id: id(3), mode: MODE_TREE }]);
    assert!(builder.close(&path, id(4)));
    let (path, list) = builder.next_open().unwrap();
    assert!(path.is_empty());
    assert_eq!(
        list,
        vec![
            Listed { name: "top.txt".to_string(), id: id(1), mode: MODE_FILE },
            Listed { name: "a".to_string(), id: id(4), mode: MODE_TREE },
        ]
    );
}

#[test]
fn open_tree_cannot_be_committed() {
    let mut builder = CommitBuilder::new(None);
    assert_eq!(builder.add_to_tree("a", id(1), MODE_FILE), Ok(()));
    let author = Signature { name: "A".to_string(), email: "a@example.org".to_string() };
    assert_eq!(builder.commit(&author, &author, "m"), Err(BuildError::OpenTree));
}

#[test]
fn untouched_base_is_committed_as_it_is() {
    let builder = CommitBuilder::new(Some(Base { commit: id(9), tree: id(8) }));
    assert!(builder.next_open().is_none());
    let author = Signature { name: "A".to_string(), email: "a@example.org".to_string() };
    let commit = builder.commit(&author, &author, "m").unwrap();
    assert_eq!(commit.tree, id(8));
    assert_eq!(commit.parent, Some(id(9)));
    assert_eq!(commit.author, author);
}

#[test]
fn siblings_of_the_base_are_kept() {
    let mut builder = CommitBuilder::new(Some(Base { commit: id(9), tree: id(8) }));
    let root = vec![
        Listed { name: "docs".to_string(), id: id(7), mode: MODE_TREE },
        Listed { name: "readme".to_string(), id: id(6), mode: MODE_FILE },
    ];
    let docs = vec![Listed { name: "old.html".to_string(), id: id(5), mode: MODE_FILE }];
    assert_eq!(
        builder.add_to_tree("docs/new.html", id(1), MODE_FILE),
        Err(BuildError::Unread { depth: 0, id: id(8) })
    );
    assert!(builder.load("docs/new.html", 0, &root));
    assert!(!builder.load("docs/new.html", 0, &root));
    assert_eq!(
        builder.add_to_tree("docs/new.html", id(1), MODE_FILE),
        Err(BuildError::Unread { depth: 1, id: id(7) })
    );
    assert!(builder.load("docs/new.html", 1, &docs));
    assert_eq!(builder.add_to_tree("docs/new.html", id(1), MODE_FILE), Ok(()));
    let (path, list) = builder.next_open().unwrap();
    assert_eq!(path, vec!["docs".to_string()]);
    assert_eq!(
        list,
        vec![
            Listed { name: "old.html".to_string(), id: id(5), mode: MODE_FILE },
            Listed { name: "new.html".to_string(), id: id(1), mode: MODE_FILE },
        ]
    );
    assert!(!builder.close(&vec![], id(3)));
    assert!(builder.close(&path, id(4)));
    let (path, list) = builder.next_open().unwrap();
    assert!(path.is_empty());
    assert_eq!(
        list,
        vec![
            Listed { name: "docs".to_string(), id: id(4), mode: MODE_TREE },
            Listed { name: "readme".to_string(), id: id(6), mode: MODE_FILE },
        ]
    );
}

#[test]
fn file_replaces_a_subtree_of_its_name() {
    let mut builder = CommitBuilder::new(None);
    assert_eq!(builder.add_to_tree("a/b", id(1), MODE_FILE), Ok(()));
    assert_eq!(builder.add_to_tree("a", id(2), MODE_FILE), Ok(()));
    let (path, list) = builder.next_open().unwrap();
    assert!(path.is_empty());
    assert_eq!(list, vec![Listed { name: "a".to_string(), id: id(2), mode: MODE_FILE }]);
}
