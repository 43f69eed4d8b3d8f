use textrope::rope::Rope;

#[test]
fn basic_tests() {
    let parts = vec![
        (0, "Some "),
        (5, "people "),
        (0, "It "),
        (15, "not "),
        (3, "just "),
        (24, "knowing "),
        (8, "goes and"),
        (28, "started "),
        (13, "'round "),
        (23, " 'round "),
        (51, "singing "),
        (71, "what was;\n"),
        (75, " it"),
        (30, ", my"),
        (63, "it\n"),
        (35, "frends.\n"),
        (37, "i"),
        (100, " forever"),
        (0, "This "),
        (113, "because..."),
        (5, " the"),
        (5, "is"),
        (111, "and "),
        (115, "they"),
        (11, "ends.\n"),
        (11, " never "),
        (133, "continue "),
        (11, " that"),
        (146, " singing"),
        (12, "song "),
        (159, " t"),
        (160, "i"),
        (170, " jt "),
        (172, "us"),
        (186, "\n"),
    ];
    let contents = "This is the song that never ends.\n\
            It just goes 'round and 'round, my friends.\n\
            Some people started singing it\n\
            not knowing what it was;\n\
            and they continue singing it forever just because...\n\
        ";

    let mut rope = Rope::empty();
    assert!(rope.is_balanced());

    for (at, p) in parts.iter() {
        rope = rope.insert_at(*at, p.to_string()).unwrap();
        assert!(
            rope.is_balanced(),
            "unbalanced when inserting {:?} at {}",
            p,
            at
        );
    }
    assert!(rope.is_balanced());
    assert_eq!(rope.to_string(), contents);

    for at in 0..rope.len() {
        let (split_left, split_right) = rope.split(at).expect("split rope");

        assert_eq!(split_left.to_string(), contents[..at]);
        assert_eq!(split_right.to_string(), contents[at..]);

        assert!(split_left.is_balanced());
        assert!(split_right.is_balanced());
    }

    (1..=rope.len()).fold(rope.snapshot(), |rope, i| {
        let (updated, deleted) = rope.delete_at(0, 1).expect("delete rope");

        assert_eq!(updated.to_string(), contents[i..]);
        assert_eq!(deleted.to_string().as_bytes(), [contents.as_bytes()[i - 1]]);
        assert!(updated.is_balanced());
        assert!(deleted.is_balanced());
        updated
    });

    (1..=rope.len()).fold(rope.snapshot(), |rope, i| {
        let (updated, deleted) = rope.delete_at(rope.len() - 1, 1).expect("delete rope");

        assert_eq!(updated.to_string(), contents[..(rope.len() - 1)]);
        assert_eq!(
            deleted.to_string(),
            String::from_utf8(vec![contents.as_bytes()[rope.len() - 1]]).expect("utf8 string")
        );
        assert!(updated.is_balanced());
        assert!(deleted.is_balanced());
        updated
    });
}
