use bytes::Bytes;
use digistructor::hydrate;
use digistructor::load;
use digistructor::raw;
use digistructor::sha256;
use digistructor::AppendEdge;
use digistructor::Digistructor;
use digistructor::Error;
use digistructor::Leaf;
use digistructor::Node;

#[test]
fn ok() -> Result<(), Error> {
    let want = raw(b"abc" as &[u8]);
    let mut ds = Digistructor::new();
    ds.add(Node::Raw(want.clone()));

    let have = ds.get(&want.digest)?;
    assert_eq!(want.data, have.as_slice());
    Ok(())
}

#[test]
fn corrupted() {
    let want = Leaf {
        digest: Vec::from(b"badhash" as &[u8]),
        data: Vec::from(b"abc" as &[u8]),
    };
    let mut ds = Digistructor::new();
    ds.add(Node::Raw(want.clone()));

    let have = ds.get(&want.digest);
    match have {
        Ok(_) => panic!("failed to catch digest mismatch"),
        Err(e) => match e {
            Error::DigestMismatch(_, _) => {}
            _ => panic!("DigestMismatch expected; got {:?}", e),
        },
    }
}

#[test]
fn ok_balanced() -> Result<(), Error> {
    let a = raw(b"a");
    let b = raw(b"b");
    let c = raw(b"c");
    let d = raw(b"d");

    let ab = AppendEdge {
        digest: sha256(b"ab"),
        left: a.digest.clone(),
        right: b.digest.clone(),
    };

    let cd = AppendEdge {
        digest: sha256(b"cd"),
        left: c.digest.clone(),
        right: d.digest.clone(),
    };

    let abcd = AppendEdge {
        digest: sha256(b"abcd"),
        left: ab.digest.clone(),
        right: cd.digest.clone(),
    };
    let mut ds = Digistructor::new();

    ds.add(Node::Raw(a));
    ds.add(Node::Raw(b));
    ds.add(Node::Raw(c));
    ds.add(Node::Raw(d));

    ds.add(Node::Append(ab));
    ds.add(Node::Append(cd));
    ds.add(Node::Append(abcd));

    let want = Bytes::from(b"abcd" as &[u8]);
    let have = ds.get(&sha256(b"abcd"))?;
    assert_eq!(want, have);
    Ok(())
}

#[test]
fn ok_unbalanced() -> Result<(), Error> {
    let a = raw(b"a");
    let b = raw(b"b");
    let c = raw(b"c");
    let d = raw(b"d");

    let bc = AppendEdge {
        digest: sha256(b"bc"),
        left: b.digest.clone(),
        right: c.digest.clone(),
    };

    let bcd = AppendEdge {
        digest: sha256(b"bcd"),
        left: bc.digest.clone(),
        right: d.digest.clone(),
    };

    let abcd = AppendEdge {
        digest: sha256(b"abcd"),
        left: a.digest.clone(),
        right: bcd.digest.clone(),
    };
    let mut ds = Digistructor::new();

    ds.add(Node::Raw(a));
    ds.add(Node::Raw(b));
    ds.add(Node::Raw(c));
    ds.add(Node::Raw(d));

    ds.add(Node::Append(bc));
    ds.add(Node::Append(bcd));
    ds.add(Node::Append(abcd));

    let want = Bytes::from(b"abcd" as &[u8]);
    match ds.get(&sha256(b"abcd")) {
        Ok(have) => assert_eq!(want, have),
        Err(err) => panic!("unexpected error {:?}", err),
    };
    Ok(())
}

// The loader against a backing store holding the leaves `a`..`d` in its leaf
// relation and the edges `bc`, `bcd`, `abcd` in its edge relation.
#[test]
fn sqlite() {
    let a = raw(b"a");
    let b = raw(b"b");
    let c = raw(b"c");
    let d = raw(b"d");

    let bc = AppendEdge {
        digest: sha256(b"bc"),
        left: b.digest.clone(),
        right: c.digest.clone(),
    };

    let bcd = AppendEdge {
        digest: sha256(b"bcd"),
        left: bc.digest.clone(),
        right: d.digest.clone(),
    };

    let abcd = AppendEdge {
        digest: sha256(b"abcd"),
        left: a.digest.clone(),
        right: bcd.digest.clone(),
    };

    let leaves = vec![a, b, c, d];
    let edges = vec![bc, bcd, abcd];

    let target = sha256(b"abcd");
    let ds = load(&target, &leaves, &edges);

    let want = Bytes::from(b"abcd" as &[u8]);
    let have = ds.get(&target).expect("failed to get abcd");
    assert_eq!(want, have);
}

#[test]
fn round_trip_empty() {
    let leaf = raw(b"");
    let mut ds = Digistructor::new();
    let digest = leaf.digest.clone();
    ds.add(Node::Raw(leaf));
    let have = ds.get(&digest).expect("empty leaf must resolve");
    assert_eq!(have, Vec::<u8>::new());
}

#[test]
fn sha256_known_answer() {
    assert_eq!(
        hex::encode(sha256(b"abc")),
        "ba7816bf8f01cfea414140de5dae2223b00361a396177a9cb410ff61f20015ad"
    );
    assert_eq!(
        hex::encode(sha256(b"")),
        "e3b0c44298fc1c149afbf4c8996fb92427ae41e4649b934ca495991b7852b855"
    );
    assert_eq!(raw(b"abc").digest, sha256(b"abc"));
}

#[test]
fn missing_digest() {
    let ds = Digistructor::new();
    let want = sha256(b"nothing here");
    match ds.get(&want) {
        Err(Error::NotFound(d)) => assert_eq!(d, want),
        other => panic!("NotFound expected; got {:?}", other),
    }
}

#[test]
fn digest_mismatch_payloads() {
    let mut ds = Digistructor::new();
    let leaf = Leaf {
        digest: Vec::from(b"badhash" as &[u8]),
        data: Vec::from(b"abc" as &[u8]),
    };
    ds.add(Node::Raw(leaf));
    match ds.get(&Vec::from(b"badhash" as &[u8])) {
        Err(Error::DigestMismatch(want, have)) => {
            assert_eq!(want, Vec::from(b"badhash" as &[u8]));
            assert_eq!(have, sha256(b"abc"));
        }
        other => panic!("DigestMismatch expected; got {:?}", other),
    }
}

#[test]
fn check_is_membership_only() {
    let mut ds = Digistructor::new();
    let bogus = Leaf {
        digest: Vec::from(b"badhash" as &[u8]),
        data: Vec::from(b"abc" as &[u8]),
    };
    assert!(!ds.check(&bogus.digest));
    ds.add(Node::Raw(bogus.clone()));
    // membership only: the node is there even though it would never verify
    assert!(ds.check(&bogus.digest));
    assert!(ds.get(&bogus.digest).is_err());
}

#[test]
fn add_overwrites_same_digest() {
    let mut ds = Digistructor::new();
    let tampered = Leaf {
        digest: sha256(b"xy"),
        data: Vec::from(b"zz" as &[u8]),
    };
    ds.add(Node::Raw(tampered));
    assert!(ds.get(&sha256(b"xy")).is_err());
    ds.add(Node::Raw(raw(b"xy")));
    let have = ds.get(&sha256(b"xy")).expect("overwritten leaf must resolve");
    assert_eq!(have, Vec::from(b"xy" as &[u8]));
}

#[test]
fn shape_independence() {
    // balanced: (a.b).(c.d)
    let mut balanced = Digistructor::new();
    balanced.add(Node::Raw(raw(b"a")));
    balanced.add(Node::Raw(raw(b"b")));
    balanced.add(Node::Raw(raw(b"c")));
    balanced.add(Node::Raw(raw(b"d")));
    balanced.add(Node::Append(AppendEdge {
        digest: sha256(b"ab"),
        left: sha256(b"a"),
        right: sha256(b"b"),
    }));
    balanced.add(Node::Append(AppendEdge {
        digest: sha256(b"cd"),
        left: sha256(b"c"),
        right: sha256(b"d"),
    }));
    balanced.add(Node::Append(AppendEdge {
        digest: sha256(b"abcd"),
        left: sha256(b"ab"),
        right: sha256(b"cd"),
    }));

    // unbalanced: a.((b.c).d)
    let mut chained = Digistructor::new();
    chained.add(Node::Raw(raw(b"a")));
    chained.add(Node::Raw(raw(b"b")));
    chained.add(Node::Raw(raw(b"c")));
    chained.add(Node::Raw(raw(b"d")));
    chained.add(Node::Append(AppendEdge {
        digest: sha256(b"bc"),
        left: sha256(b"b"),
        right: sha256(b"c"),
    }));
    chained.add(Node::Append(AppendEdge {
        digest: sha256(b"bcd"),
        left: sha256(b"bc"),
        right: sha256(b"d"),
    }));
    chained.add(Node::Append(AppendEdge {
        digest: sha256(b"abcd"),
        left: sha256(b"a"),
        right: sha256(b"bcd"),
    }));

    // both shapes are addressed by the identical digest and return identical bytes
    let address = sha256(b"abcd");
    let from_balanced = balanced.get(&address).expect("balanced shape must resolve");
    let from_chained = chained.get(&address).expect("chained shape must resolve");
    assert_eq!(from_balanced, from_chained);
    assert_eq!(from_balanced, Vec::from(b"abcd" as &[u8]));
}

#[test]
fn order_sensitivity() {
    let mut ds = Digistructor::new();
    ds.add(Node::Raw(raw(b"a")));
    ds.add(Node::Raw(raw(b"b")));
    ds.add(Node::Append(AppendEdge {
        digest: sha256(b"ab"),
        left: sha256(b"a"),
        right: sha256(b"b"),
    }));
    // the same children with left and right swapped
    ds.add(Node::Append(AppendEdge {
        digest: sha256(b"ba"),
        left: sha256(b"b"),
        right: sha256(b"a"),
    }));

    assert_ne!(sha256(b"ab"), sha256(b"ba"));
    let forward = ds.get(&sha256(b"ab")).expect("forward edge must resolve");
    let swapped = ds.get(&sha256(b"ba")).expect("swapped edge must resolve");
    assert_eq!(forward, Vec::from(b"ab" as &[u8]));
    assert_eq!(swapped, Vec::from(b"ba" as &[u8]));
    assert_ne!(forward, swapped);
}

#[test]
fn cyclic_recipe_is_not_found() {
    let mut ds = Digistructor::new();
    let knot = sha256(b"knot");
    ds.add(Node::Append(AppendEdge {
        digest: knot.clone(),
        left: knot.clone(),
        right: knot.clone(),
    }));
    match ds.get(&knot) {
        Err(Error::NotFound(d)) => assert_eq!(d, knot),
        other => panic!("NotFound expected; got {:?}", other),
    }
}

#[test]
fn loader_pruning() {
    // backing store: "abc" = a.(bc); the digest of "bc" is satisfiable by a
    // leaf, and an edge hangs strictly below it
    let leaf_a = raw(b"a");
    let leaf_bc = raw(b"bc");
    let root = AppendEdge {
        digest: sha256(b"abc"),
        left: sha256(b"a"),
        right: sha256(b"bc"),
    };
    let under_bc = AppendEdge {
        digest: sha256(b"bc"),
        left: sha256(b"b"),
        right: sha256(b"c"),
    };
    let below = AppendEdge {
        digest: sha256(b"b"),
        left: sha256(b"x"),
        right: sha256(b"y"),
    };
    let leaves = vec![leaf_a, leaf_bc];
    let edges = vec![root, under_bc, below];

    let target = sha256(b"abc");
    let ds = load(&target, &leaves, &edges);

    // the edge strictly below the leaf-satisfiable digest was not fetched
    assert!(!ds.check(&sha256(b"b")));
    assert!(!ds.check(&sha256(b"x")));
    // the leaf overrides the edge declared for its digest
    let have = ds.get(&target).expect("pruned hydration must resolve");
    assert_eq!(have, Vec::from(b"abc" as &[u8]));
}

#[test]
fn deep_chain() {
    // a left-leaning chain of four thousand edges: resolution must not grow
    // with the depth of the composition tree
    let unit = raw(b"a");
    let mut ds = Digistructor::new();
    ds.add(Node::Raw(unit.clone()));
    let mut content = Vec::from(b"a" as &[u8]);
    let mut digest = unit.digest.clone();
    for _ in 0..4000 {
        let mut next = content.clone();
        next.extend_from_slice(b"a");
        let next_digest = sha256(&next);
        ds.add(Node::Append(AppendEdge {
            digest: next_digest.clone(),
            left: digest,
            right: unit.digest.clone(),
        }));
        digest = next_digest;
        content = next;
    }
    let have = ds.get(&digest).expect("deep chain must resolve");
    assert_eq!(have.len(), 4001);
    assert_eq!(have, content);
}

#[test]
fn hydrate_leaf_target() {
    // a target the leaf relation satisfies directly needs no edge at all
    let leaves = vec![raw(b"solo")];
    let edges: Vec<AppendEdge> = Vec::new();
    let target = sha256(b"solo");
    let have = hydrate(&target, &leaves, &edges).expect("leaf target must resolve");
    assert_eq!(have, Vec::from(b"solo" as &[u8]));
}

#[test]
fn hydrate_reports_missing() {
    let leaves: Vec<Leaf> = Vec::new();
    let edges: Vec<AppendEdge> = Vec::new();
    let target = sha256(b"absent");
    match hydrate(&target, &leaves, &edges) {
        Err(Error::NotFound(d)) => assert_eq!(d, target),
        other => panic!("NotFound expected; got {:?}", other),
    }
}
