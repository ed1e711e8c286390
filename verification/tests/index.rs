use git_reconstruct::batch::batch_query;
use git_reconstruct::cache::{load_graph, save_graph};
use git_reconstruct::codec::{decode_graph, encode_graph};
use git_reconstruct::config::{cache_action, plan_roots, CacheAction, RootsPlan};
use git_reconstruct::digest::{parse_hex_digest, to_hex, Digest};
use git_reconstruct::graph::{ReverseGraph, Stack};
use git_reconstruct::lut::{build, chunk_bounds, commit_oids_table, commits_by_blob, BuildError};
use git_reconstruct::proto::format_commits_line;
use git_reconstruct::source::{CommitInfo, Kind, TreeEntry, TreeStore};

fn d(n: u8) -> Digest {
    Digest::new([n; 20])
}

fn entry(n: u8, kind: Kind) -> TreeEntry {
    TreeEntry { digest: d(n), kind }
}

fn commit(c: u8, root: u8) -> CommitInfo {
    CommitInfo { commit: d(c), root_tree: d(root) }
}

fn has(found: &Vec<Digest>, want: &Digest) -> bool {
    found.iter().any(|x| x.eq_digest(want))
}

fn lookup_set(g: &ReverseGraph, blob: &Digest) -> Vec<Digest> {
    let mut stack = Stack::default();
    let mut out = Vec::new();
    g.lookup(blob, &mut stack, &mut out);
    out
}

// Commit C1 -> tree T1 -> blob B1.  C* digests use 1x, T* use 2x, B* 3x.
fn scenario_one() -> (Vec<CommitInfo>, TreeStore) {
    let commits = vec![commit(11, 21)];
    let mut store = TreeStore::new();
    store.add_tree(d(21), vec![entry(31, Kind::Blob)]);
    (commits, store)
}

// C1 -> T1 -> { B1, T2 -> B2 }.
fn scenario_three() -> (Vec<CommitInfo>, TreeStore) {
    let commits = vec![commit(11, 21)];
    let mut store = TreeStore::new();
    store.add_tree(d(21), vec![entry(31, Kind::Blob), entry(22, Kind::Tree)]);
    store.add_tree(d(22), vec![entry(32, Kind::Blob)]);
    (commits, store)
}

#[test]
fn single_commit_single_blob() {
    let (commits, store) = scenario_one();
    let g = build(&commits, &store).unwrap();
    let found = lookup_set(&g, &d(31));
    assert_eq!(found.len(), 1);
    assert!(has(&found, &d(11)));
    // A digest never inserted yields empty output, not an error.
    let none = lookup_set(&g, &d(32));
    assert!(none.is_empty());
}

#[test]
fn shared_tree_two_commits() {
    // C1 and C2 both reference T1; T1 -> B1: the blob belongs to both.
    let commits = vec![commit(11, 21), commit(12, 21)];
    let mut store = TreeStore::new();
    store.add_tree(d(21), vec![entry(31, Kind::Blob)]);
    let g = build(&commits, &store).unwrap();
    let found = lookup_set(&g, &d(31));
    assert_eq!(found.len(), 2);
    assert!(has(&found, &d(11)));
    assert!(has(&found, &d(12)));
}

#[test]
fn shared_subtree_three_commits() {
    // A blob reachable from three commits via a shared subtree.
    let commits = vec![commit(11, 21), commit(12, 22), commit(13, 23)];
    let mut store = TreeStore::new();
    store.add_tree(d(21), vec![entry(24, Kind::Tree)]);
    store.add_tree(d(22), vec![entry(24, Kind::Tree)]);
    store.add_tree(d(23), vec![entry(24, Kind::Tree)]);
    store.add_tree(d(24), vec![entry(31, Kind::Blob)]);
    let g = build(&commits, &store).unwrap();
    let found = lookup_set(&g, &d(31));
    assert_eq!(found.len(), 3);
    assert!(has(&found, &d(11)));
    assert!(has(&found, &d(12)));
    assert!(has(&found, &d(13)));
}

#[test]
fn nested_tree_queries() {
    let (commits, store) = scenario_three();
    let g = build(&commits, &store).unwrap();
    let b2 = lookup_set(&g, &d(32));
    assert_eq!(b2.len(), 1);
    assert!(has(&b2, &d(11)));
    let b1 = lookup_set(&g, &d(31));
    assert_eq!(b1.len(), 1);
    assert!(has(&b1, &d(11)));
}

#[test]
fn empty_repository() {
    let commits: Vec<CommitInfo> = Vec::new();
    let store = TreeStore::new();
    let g = build(&commits, &store).unwrap();
    assert_eq!(g.len(), 0);
    assert!(lookup_set(&g, &d(31)).is_empty());
}

#[test]
fn missing_tree_is_fatal() {
    // The root tree is not in the store: the build reports it.
    let commits = vec![commit(11, 21)];
    let store = TreeStore::new();
    match build(&commits, &store) {
        Err(BuildError::MissingTree(t)) => assert!(t.eq_digest(&d(21))),
        Ok(_) => panic!("build should fail on a missing tree"),
    }
}

#[test]
fn missing_subtree_is_fatal() {
    // The root tree is stored but names a child tree that is not:
    // the inconsistency inside the walk is fatal, not skipped.
    let commits = vec![commit(11, 21)];
    let mut store = TreeStore::new();
    store.add_tree(d(21), vec![entry(31, Kind::Blob), entry(22, Kind::Tree)]);
    match build(&commits, &store) {
        Err(BuildError::MissingTree(t)) => assert!(t.eq_digest(&d(22))),
        Ok(_) => panic!("build should fail on a missing subtree"),
    }
}

#[test]
fn chain_collapse_preserves_answers() {
    // C1 -> T1 -> T2 -> T3 -> B1: after optimize, B1's parent list
    // points directly at the chain's collapsed root (the commit
    // vertex), and the query answer is unchanged.
    let commits = vec![commit(11, 21)];
    let mut store = TreeStore::new();
    store.add_tree(d(21), vec![entry(22, Kind::Tree)]);
    store.add_tree(d(22), vec![entry(23, Kind::Tree)]);
    store.add_tree(d(23), vec![entry(31, Kind::Blob)]);
    let mut g = build(&commits, &store).unwrap();
    let before = lookup_set(&g, &d(31));
    assert_eq!(before.len(), 1);
    assert!(has(&before, &d(11)));

    let rewrites = g.optimize_topology();
    assert!(rewrites >= 2);
    let b1 = g.find_id(&d(31)).unwrap();
    let c1 = g.find_id(&d(11)).unwrap();
    assert_eq!(g.parent_count(b1), 1);
    assert_eq!(g.parent_at(b1, 0), c1);

    let after = lookup_set(&g, &d(31));
    assert_eq!(after.len(), 1);
    assert!(has(&after, &d(11)));
}

#[test]
fn compact_twice_same_as_once() {
    let (commits, store) = scenario_three();
    let mut g = build(&commits, &store).unwrap();
    g.compact();
    let once = lookup_set(&g, &d(32));
    g.compact();
    let twice = lookup_set(&g, &d(32));
    assert_eq!(once.len(), twice.len());
    assert!(has(&twice, &d(11)));
    assert_eq!(g.len(), 5);
}

#[test]
fn codec_roundtrip() {
    let (commits, store) = scenario_three();
    let g = build(&commits, &store).unwrap();
    let bytes = encode_graph(&g);
    let g2 = decode_graph(&bytes).expect("decoding its own encoding");
    assert_eq!(g2.len(), g.len());
    let found = lookup_set(&g2, &d(32));
    assert_eq!(found.len(), 1);
    assert!(has(&found, &d(11)));
}

#[test]
fn decode_rejects_corrupt_bytes() {
    let (commits, store) = scenario_three();
    let g = build(&commits, &store).unwrap();
    let mut bytes = encode_graph(&g);
    bytes[0] = bytes[0].wrapping_add(1);
    assert!(decode_graph(&bytes).is_none());
    assert!(decode_graph(&vec![1, 2, 3]).is_none());
}

#[test]
fn save_and_load_cache() {
    // Scenario three saved through the compressor and loaded back:
    // the query for B2 still yields exactly C1.
    let (commits, store) = scenario_three();
    let g = build(&commits, &store).unwrap();
    let packed = save_graph(&g).expect("compressing the index");
    let g2 = load_graph(&packed).expect("loading the saved index");
    let found = lookup_set(&g2, &d(32));
    assert_eq!(found.len(), 1);
    assert!(has(&found, &d(11)));
    // A truncated cache file is a load error, not a wrong answer.
    let cut: Vec<u8> = packed[..packed.len() / 2].to_vec();
    assert!(load_graph(&cut).is_none());
}

#[test]
fn batch_query_covers_both_blobs() {
    // Two files hashing to B1 and B2 against scenario three's index:
    // the bitmap shows that C1 contains both.
    let (commits, store) = scenario_three();
    let g = build(&commits, &store).unwrap();
    let blobs = vec![d(31), d(32)];
    let mut stack = Stack::default();
    let table = batch_query(&g, &blobs, &mut stack);
    let c1 = g.find_id(&d(11)).unwrap();
    assert!(table.covers(c1, 0));
    assert!(table.covers(c1, 1));
    let t1 = g.find_id(&d(21)).unwrap();
    assert!(!table.covers(t1, 0));
}

#[test]
fn parallel_chunks_match_single_build() {
    // Two chunks of the commit list, built separately and queried in
    // turn, answer like one build over the whole list.
    let commits = vec![commit(11, 21), commit(12, 22), commit(13, 21)];
    let mut store = TreeStore::new();
    store.add_tree(d(21), vec![entry(31, Kind::Blob)]);
    store.add_tree(d(22), vec![entry(31, Kind::Blob), entry(32, Kind::Blob)]);
    let g_all = build(&commits, &store).unwrap();

    let cuts = chunk_bounds(commits.len(), 2);
    let mut graphs = Vec::new();
    for (lo, hi) in cuts.iter() {
        let chunk: Vec<CommitInfo> = commits[*lo..*hi].to_vec();
        graphs.push(build(&chunk, &store).unwrap());
    }
    let mut stack = Stack::default();
    for blob in [d(31), d(32)] {
        let mut merged = Vec::new();
        commits_by_blob(&blob, &graphs, &mut stack, &mut merged);
        let single = lookup_set(&g_all, &blob);
        assert_eq!(merged.len(), single.len());
        for c in single.iter() {
            assert!(has(&merged, c));
        }
    }
    let table = commit_oids_table(&graphs);
    assert_eq!(table.len(), graphs.len());
    assert_eq!(table[0].len(), graphs[0].len());
}

#[test]
fn hex_parse_and_format() {
    let hex = b"0102030405060708090a0b0c0d0e0f1011121314";
    let dig = parse_hex_digest(hex).expect("a valid hex digest");
    assert_eq!(to_hex(&dig), hex.to_vec());
    assert!(parse_hex_digest(b"0102").is_none());
    assert!(parse_hex_digest(b"zz02030405060708090a0b0c0d0e0f1011121314").is_none());
    let upper = b"0102030405060708090A0B0C0D0E0F1011121314";
    let dig2 = parse_hex_digest(upper).expect("upper-case hex parses");
    assert!(dig2.eq_digest(&dig));
}

#[test]
fn answer_line_format() {
    let none: Vec<Digest> = Vec::new();
    assert_eq!(format_commits_line(&none), b"\n".to_vec());
    let one = vec![d(0x11)];
    assert_eq!(
        format_commits_line(&one),
        b"1111111111111111111111111111111111111111\n".to_vec()
    );
    let two = vec![d(0x11), d(0x12)];
    let line = format_commits_line(&two);
    assert_eq!(line[40], b' ');
    assert_eq!(line[line.len() - 1], b'\n');
    assert_eq!(line.len(), 82);
}

#[test]
fn cache_policy() {
    assert!(matches!(cache_action(true, true), CacheAction::LoadExisting));
    assert!(matches!(cache_action(true, false), CacheAction::BuildAndSave));
    assert!(matches!(cache_action(false, false), CacheAction::BuildOnly));
    assert!(matches!(cache_action(false, true), CacheAction::BuildOnly));
}

#[test]
fn roots_policy() {
    // head_only pushes only the head (and a repository without a head
    // then fails in the reader); otherwise remotes, falling back to
    // the head with a warning when there is no remote.
    assert!(matches!(plan_roots(true, 0), RootsPlan::Head));
    assert!(matches!(plan_roots(true, 3), RootsPlan::Head));
    assert!(matches!(plan_roots(false, 2), RootsPlan::Remotes));
    assert!(matches!(plan_roots(false, 0), RootsPlan::FallbackHead));
}

#[test]
fn chunk_bounds_partition() {
    let r = chunk_bounds(5, 2);
    assert_eq!(r.first().unwrap().0, 0);
    assert_eq!(r.last().unwrap().1, 5);
    for w in r.windows(2) {
        assert_eq!(w[0].1, w[1].0);
    }
    for (lo, hi) in r.iter() {
        assert!(lo < hi);
    }
    assert!(chunk_bounds(0, 4).is_empty());
    let single = chunk_bounds(3, 8);
    assert_eq!(single.len(), 3);
}
