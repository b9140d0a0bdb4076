use rag_cli_app::chunker::split;
use rag_cli_app::collection::EnsureMachine;
use rag_cli_app::collection::StoreOp;
use rag_cli_app::collection::ensure_collection;
use rag_cli_app::embedder::StubEmbedder;
use rag_cli_app::ingest::embed_and_store;
use rag_cli_app::ingest::get_stem_name;
use rag_cli_app::store::StoreError;
use rag_cli_app::store::VectorStore;

#[test]
fn ensure_collection_recovers_wrong_dimension() {
    let mut store = VectorStore::new();
    store.create_collection("papers", 64).unwrap();
    // a stale collection of the wrong dimension is reset to the requested one
    ensure_collection(&mut store, "papers", 128).unwrap();
    // a second identical call leaves the collection just as usable
    ensure_collection(&mut store, "papers", 128).unwrap();
    let embedder = StubEmbedder::new(128);
    let chunks = split("Hello there.", 16, "doc");
    embed_and_store(&mut store, "papers", &embedder, &chunks).unwrap();
}

#[test]
fn ensure_collection_creates_when_absent() {
    let mut store = VectorStore::new();
    ensure_collection(&mut store, "fresh", 32).unwrap();
    let embedder = StubEmbedder::new(32);
    let chunks = split("One.", 8, "d");
    assert!(embed_and_store(&mut store, "fresh", &embedder, &chunks).is_ok());
}

#[test]
fn ensure_machine_recovers_then_finishes() {
    let mut store = VectorStore::new();
    store.create_collection("doc", 64).unwrap();
    let mut machine = EnsureMachine::new();
    let mut rounds: usize = 0;
    loop {
        match machine.next_op() {
            StoreOp::CreateCollection => {
                let ok = store.create_collection("doc", 128).is_ok();
                machine.on_result(ok);
            },
            StoreOp::DeleteCollection => {
                let ok = store.delete_collection("doc").is_ok();
                machine.on_result(ok);
            },
            StoreOp::Finish => break,
            StoreOp::Abort => panic!("recovery reported fatal"),
        }
        rounds += 1;
        assert!(rounds <= 4);
    }
    let embedder = StubEmbedder::new(128);
    let chunks = split("Ok.", 8, "doc");
    assert!(embed_and_store(&mut store, "doc", &embedder, &chunks).is_ok());
}

#[test]
fn ensure_machine_deletion_failure_is_fatal() {
    let mut machine = EnsureMachine::new();
    machine.on_result(false);
    assert!(matches!(machine.next_op(), StoreOp::DeleteCollection));
    machine.on_result(false);
    assert!(matches!(machine.next_op(), StoreOp::Abort));
}

#[test]
fn ensure_machine_second_creation_failure_is_fatal() {
    let mut machine = EnsureMachine::new();
    machine.on_result(false);
    machine.on_result(true);
    assert!(matches!(machine.next_op(), StoreOp::CreateCollection));
    machine.on_result(false);
    assert!(matches!(machine.next_op(), StoreOp::Abort));
}

#[test]
fn self_retrieval_returns_own_payload() {
    let mut store = VectorStore::new();
    ensure_collection(&mut store, "doc", 128).unwrap();
    let embedder = StubEmbedder::new(128);
    let chunks = split("A cat sat. A dog ran.", 8, "doc");
    embed_and_store(&mut store, "doc", &embedder, &chunks).unwrap();
    let q = embedder.embed_one("A cat sat.");
    let results = store.search("doc", &q, 1).unwrap();
    assert_eq!(results.len(), 1);
    assert_eq!(results[0].payload.as_deref(), Some("A cat sat."));
}

#[test]
fn search_scores_non_increasing_and_bounded() {
    let mut store = VectorStore::new();
    ensure_collection(&mut store, "doc", 128).unwrap();
    let embedder = StubEmbedder::new(128);
    let chunks = split("A cat sat. A dog ran. The sun set.", 12, "doc");
    assert_eq!(chunks.len(), 3);
    embed_and_store(&mut store, "doc", &embedder, &chunks).unwrap();
    let q = embedder.embed_one("cat and dog");
    let results = store.search("doc", &q, 2).unwrap();
    assert_eq!(results.len(), 2);
    for w in results.windows(2) {
        assert!(w[0].score >= w[1].score);
    }
    let all = store.search("doc", &q, 100).unwrap();
    assert_eq!(all.len(), 3);
    for w in all.windows(2) {
        assert!(w[0].score >= w[1].score);
    }
}

#[test]
fn end_to_end_cat_query() {
    let mut store = VectorStore::new();
    let name = get_stem_name("./docs/pets.txt");
    assert_eq!(name, "pets");
    ensure_collection(&mut store, &name, 128).unwrap();
    let embedder = StubEmbedder::new(128);
    let chunks = split("A cat sat. A dog ran.", 8, &name);
    assert_eq!(chunks.len(), 2);
    assert_eq!(chunks[0].text, "A cat sat.");
    assert_eq!(chunks[1].text, "A dog ran.");
    embed_and_store(&mut store, &name, &embedder, &chunks).unwrap();
    let q = embedder.embed_one("Where did the cat sit?");
    let results = store.search(&name, &q, 1).unwrap();
    assert_eq!(results.len(), 1);
    assert_eq!(results[0].payload.as_deref(), Some("A cat sat."));
}

#[test]
fn search_missing_collection_fails() {
    let store = VectorStore::new();
    let q = vec![0u64; 4];
    assert!(matches!(store.search("none", &q, 3), Err(StoreError::CollectionNotFound)));
}

#[test]
fn create_existing_collection_fails() {
    let mut store = VectorStore::new();
    store.create_collection("c", 8).unwrap();
    assert!(matches!(store.create_collection("c", 8), Err(StoreError::CollectionExists)));
}

#[test]
fn delete_missing_collection_fails() {
    let mut store = VectorStore::new();
    assert!(matches!(store.delete_collection("c"), Err(StoreError::CollectionNotFound)));
}

#[test]
fn insert_wrong_dimension_fails() {
    let mut store = VectorStore::new();
    store.create_collection("c", 4).unwrap();
    let vectors = vec![vec![1u64, 2, 3]];
    let payloads = vec![String::from("x")];
    assert!(matches!(
        store.insert_many("c", vectors, payloads),
        Err(StoreError::DimensionMismatch)
    ));
}

#[test]
fn insert_missing_collection_fails() {
    let mut store = VectorStore::new();
    let vectors = vec![vec![1u64, 2]];
    let payloads = vec![String::from("x")];
    assert!(matches!(
        store.insert_many("ghostly", vectors, payloads),
        Err(StoreError::CollectionNotFound)
    ));
}

#[test]
fn embedding_is_deterministic_and_fixed_length() {
    let embedder = StubEmbedder::new(128);
    let a = embedder.embed_one("hello");
    let b = embedder.embed_one("hello");
    assert_eq!(a, b);
    assert_eq!(a.len(), 128);
    assert_eq!(a['l' as usize], 2);
    assert_eq!(a['h' as usize], 1);
    assert_eq!(a['z' as usize], 0);
}

#[test]
fn embed_batch_matches_positionally() {
    let embedder = StubEmbedder::new(64);
    let texts = vec![String::from("ab"), String::from("ba"), String::from("c")];
    let vs = embedder.embed_batch(&texts);
    assert_eq!(vs.len(), 3);
    for (i, t) in texts.iter().enumerate() {
        assert_eq!(vs[i], embedder.embed_one(t));
    }
}

#[test]
fn stem_strips_directories_and_extension() {
    assert_eq!(get_stem_name("./docs/report.pdf"), "report");
    assert_eq!(get_stem_name("archive.tar.gz"), "archive.tar");
    assert_eq!(get_stem_name("notes"), "notes");
    assert_eq!(get_stem_name(".hidden"), ".hidden");
}
