use conftree::{ConfigurationItem, ConfigurationNode};

fn node(entries: Vec<(&[u8], ConfigurationItem)>) -> ConfigurationNode {
    ConfigurationNode {
        entries: entries.into_iter().map(|(n, i)| (n.to_vec(), i)).collect(),
    }
}

#[test]
fn test_merge() {
    let mut initial = node(vec![
        (b"A", ConfigurationItem::Bool(true)),
        (
            b"C",
            ConfigurationItem::Node(node(vec![(b"C", ConfigurationItem::Bool(true))])),
        ),
        (b"D", ConfigurationItem::Bool(false)),
    ]);

    let over = node(vec![
        (
            b"A",
            ConfigurationItem::Node(node(vec![(b"B", ConfigurationItem::Bool(true))])),
        ),
        (b"C", ConfigurationItem::Bool(true)),
        (b"D", ConfigurationItem::Bool(true)),
    ]);

    initial.merge(&over);

    println!("{:#?}", initial);
}

#[test]
fn merge_overlay_wins_in_matching_nodes() {
    // {"A": Node{"X": false}} merged with {"A": Node{"X": true}} gives
    // {"A": Node{"X": true}}
    let mut base = node(vec![(
        b"A",
        ConfigurationItem::Node(node(vec![(b"X", ConfigurationItem::Bool(false))])),
    )]);
    let over = node(vec![(
        b"A",
        ConfigurationItem::Node(node(vec![(b"X", ConfigurationItem::Bool(true))])),
    )]);
    base.merge(&over);
    let want = node(vec![(
        b"A",
        ConfigurationItem::Node(node(vec![(b"X", ConfigurationItem::Bool(true))])),
    )]);
    assert_eq!(base, want);
}

#[test]
fn merge_type_mismatch_replaces() {
    // {"A": false} merged with {"A": Node{"X": true}} gives the node
    let mut base = node(vec![(b"A", ConfigurationItem::Bool(false))]);
    let over = node(vec![(
        b"A",
        ConfigurationItem::Node(node(vec![(b"X", ConfigurationItem::Bool(true))])),
    )]);
    base.merge(&over);
    let want = node(vec![(
        b"A",
        ConfigurationItem::Node(node(vec![(b"X", ConfigurationItem::Bool(true))])),
    )]);
    assert_eq!(base, want);
}

#[test]
fn merge_deep_and_disjoint() {
    let mut base = node(vec![
        (
            b"scope",
            ConfigurationItem::Node(node(vec![
                (b"keep", ConfigurationItem::Byte(1)),
                (b"both", ConfigurationItem::Byte(2)),
            ])),
        ),
        (b"only_base", ConfigurationItem::Bool(true)),
    ]);
    let over = node(vec![
        (
            b"scope",
            ConfigurationItem::Node(node(vec![
                (b"both", ConfigurationItem::Byte(9)),
                (b"fresh", ConfigurationItem::Byte(3)),
            ])),
        ),
        (b"only_over", ConfigurationItem::Bool(false)),
    ]);
    base.merge(&over);
    let want = node(vec![
        (
            b"scope",
            ConfigurationItem::Node(node(vec![
                (b"keep", ConfigurationItem::Byte(1)),
                (b"both", ConfigurationItem::Byte(9)),
                (b"fresh", ConfigurationItem::Byte(3)),
            ])),
        ),
        (b"only_base", ConfigurationItem::Bool(true)),
        (b"only_over", ConfigurationItem::Bool(false)),
    ]);
    assert_eq!(base, want);
}

#[test]
fn merge_then_round_trip() {
    let mut base = node(vec![(b"A", ConfigurationItem::Bool(false))]);
    let over = node(vec![(b"B", ConfigurationItem::Usize(42))]);
    base.merge(&over);
    let bytes = conftree::encode::encode_configuration(&base).unwrap();
    let back = conftree::decode::decode_file(&bytes).unwrap();
    assert_eq!(back, base);
}
