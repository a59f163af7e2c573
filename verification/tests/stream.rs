//! Streams of key-value pairs.

use fasm_storage::btreemap::{BTreeMapStore, BTreeMapTransaction};
use fasm_storage::durable::{RedbReader, RedbTransaction};
use fasm_storage::{Commit, KvPair, KvStream, MaybeSend};

#[derive(Debug)]
struct TestErr;

#[test]
fn maybe_send_implies_send_on_native() {
    fn assert_send<T: Send>() {}

    fn via_marker<T: MaybeSend + 'static>() {
        assert_send::<T>();
    }

    via_marker::<TestErr>();
}

#[test]
fn native_storage_contract_remains_send_and_sync() {
    fn assert_send<T: Send>(_value: T) {}
    fn assert_send_sync<T: Send + Sync>() {}

    assert_send(BTreeMapStore::new().transaction().commit());
    assert_send(KvStream::<TestErr>::new(Ok(None)));
    assert_send_sync::<BTreeMapStore>();
    assert_send_sync::<BTreeMapTransaction<'static>>();
    assert_send_sync::<RedbTransaction>();
    assert_send_sync::<RedbReader>();
}

#[test]
fn kv_stream_failed_defers_a_setup_error() {
    let stream: KvStream<TestErr> = KvStream::failed(TestErr);
    assert!(stream.collect().is_err(), "deferred error surfaces");

    let empty: KvStream<TestErr> = KvStream::empty();
    assert!(empty.next().expect("empty stream").is_none());
}

fn pairs(keys: &[&[u8]]) -> Vec<KvPair> {
    keys.iter().map(|k| KvPair { key: k.to_vec(), value: vec![k.len() as u8] }).collect()
}

fn keys_of(pairs: Vec<KvPair>) -> Vec<Vec<u8>> {
    pairs.into_iter().map(|p| p.key).collect()
}

#[test]
fn a_stream_hands_its_pairs_out_in_order() {
    let stream: KvStream<TestErr> = KvStream::from_pairs(pairs(&[b"a", b"b", b"c"]), false);
    let (first, rest) = stream.next().expect("step").expect("a pair");
    assert_eq!(first.key, b"a".to_vec());
    assert_eq!(keys_of(rest.take(1).expect("take")), vec![b"b".to_vec()]);

    let reversed: KvStream<TestErr> = KvStream::from_pairs(pairs(&[b"a", b"b", b"c"]), true);
    assert_eq!(keys_of(reversed.collect().expect("collect")), vec![b"c".to_vec(), b"b".to_vec(), b"a".to_vec()]);

    // A stream put together from a head yields the head first.
    let tail: KvStream<TestErr> = KvStream::from_pairs(pairs(&[b"z"]), false);
    let head = pairs(&[b"y"]).remove(0);
    let whole = KvStream::new(Ok(Some((head, tail))));
    assert_eq!(keys_of(whole.collect().expect("collect")), vec![b"y".to_vec(), b"z".to_vec()]);
}

#[test]
fn a_failure_behind_the_pairs_surfaces_when_it_is_reached() {
    let make = || KvStream::from_pairs_then(pairs(&[b"a", b"b"]), TestErr);
    assert!(make().collect().is_err());
    // What a `take` does not reach does not fail it.
    assert_eq!(keys_of(make().take(2).expect("take")).len(), 2);
    assert!(make().take(3).is_err());
    assert!(make().take(0).expect("take").is_empty());
    // The pairs before the failure were visited.
    let mut seen: Vec<KvPair> = Vec::new();
    assert!(make().for_each(&mut seen).is_err());
    assert_eq!(keys_of(seen), vec![b"a".to_vec(), b"b".to_vec()]);
    assert!(KvStream::new(Err(TestErr)).next().is_err());
}

#[test]
fn a_visitor_sees_every_pair() {
    let stream: KvStream<TestErr> = KvStream::from_pairs(pairs(&[b"a", b"bbb", b"cc"]), false);
    let mut seen: Vec<KvPair> = pairs(&[b"before"]);
    stream.for_each(&mut seen).expect("for_each");
    assert_eq!(
        keys_of(seen),
        vec![b"before".to_vec(), b"a".to_vec(), b"bbb".to_vec(), b"cc".to_vec()]
    );
}

#[test]
fn pairs_describe_the_size_of_their_value_only() {
    let pair = KvPair { key: b"secret".to_vec(), value: vec![0; 10] };
    assert_eq!(pair.describe(), "KvPair { key: <elided>, value: <10 bytes> }");
}
