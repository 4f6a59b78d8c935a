use treemon::aggregate::bootstrap_reply;
use treemon::aggregate::handle_query;
use treemon::aggregate::response_count;
use treemon::aggregate::response_histogram;
use treemon::aggregate::response_list_keys;
use treemon::aggregate::response_values;
use treemon::aggregate::screen_children;
use treemon::counters::CounterStore;
use treemon::errors::TbonError;
use treemon::frame::decode_frame;
use treemon::frame::encode_frame;
use treemon::frame::parse_frame_header;
use treemon::hist::buckets_from_counts;
use treemon::hist::HIST_BUCKETS;
use treemon::protocol::ClientCommand;
use treemon::protocol::ClientInfo;
use treemon::protocol::TbonQuery;
use treemon::protocol::TbonResponse;
use treemon::view::Slot;
use treemon::view::TreeView;
use treemon::view::MAX_FANOUT;
use treemon::webroute::parse_url;
use treemon::webroute::route_of;
use treemon::webroute::Route;
use treemon::wire::decode_query;
use treemon::wire::decode_response;
use treemon::wire::encode_query;
use treemon::wire::encode_response;

fn store_with(pairs: &[(&str, u64)]) -> CounterStore {
    let mut store = CounterStore::new();
    for (name, value) in pairs {
        store.set_counter(name, *value);
    }
    store
}

fn ask(
    q: TbonQuery,
    store: &CounterStore,
    hostkey: &str,
    ts: u64,
    children: Vec<TbonResponse>,
) -> Result<TbonResponse, TbonError> {
    handle_query(&q, store, &String::from(hostkey), ts, children)
}

fn total(counts: &[u64]) -> u64 {
    counts.iter().sum()
}

#[test]
fn single_node_count() {
    let store = store_with(&[("a", 5)]);
    let resp = ask(TbonQuery::Count, &store, "host:1", 0, vec![]).unwrap();
    assert_eq!(response_count(resp).unwrap(), 1);
}

#[test]
fn single_node_values() {
    let store = store_with(&[("a", 5)]);
    let resp = ask(TbonQuery::Values(String::from("a")), &store, "host:1", 0, vec![]).unwrap();
    let entries = response_values(resp).unwrap();
    assert_eq!(entries.len(), 1);
    assert_eq!(entries[0].0, "host:1");
    assert_eq!(entries[0].1, 5);
}

#[test]
fn single_node_list_keys() {
    let store = store_with(&[("a", 5)]);
    let resp = ask(TbonQuery::ListKeys, &store, "host:1", 0, vec![]).unwrap();
    let keys = response_list_keys(resp).unwrap();
    assert_eq!(keys.len(), 1);
    assert_eq!(keys[0], "a");
}

#[test]
fn one_leaf_under_root() {
    // The leaf sets "a"=7 and answers the root's fan-out; the root holds
    // "a"=5 of its own.
    let leaf_store = store_with(&[("a", 7)]);
    let root_store = store_with(&[("a", 5)]);

    let leaf_count = ask(TbonQuery::Count, &leaf_store, "host:2", 0, vec![]).unwrap();
    let root_count =
        ask(TbonQuery::Count, &root_store, "host:1", 0, vec![leaf_count]).unwrap();
    assert_eq!(response_count(root_count).unwrap(), 2);

    let q = TbonQuery::Values(String::from("a"));
    let leaf_vals = ask(q, &leaf_store, "host:2", 0, vec![]).unwrap();
    let q = TbonQuery::Values(String::from("a"));
    let root_vals = ask(q, &root_store, "host:1", 0, vec![leaf_vals]).unwrap();
    let entries = response_values(root_vals).unwrap();
    assert_eq!(entries.len(), 2);
    let mut seen_leaf = false;
    let mut seen_root = false;
    for (host, v) in &entries {
        if host == "host:2" {
            assert_eq!(*v, 7);
            seen_leaf = true;
        }
        if host == "host:1" {
            assert_eq!(*v, 5);
            seen_root = true;
        }
    }
    assert!(seen_leaf && seen_root);

    let leaf_keys = ask(TbonQuery::ListKeys, &leaf_store, "host:2", 0, vec![]).unwrap();
    let root_keys =
        ask(TbonQuery::ListKeys, &root_store, "host:1", 0, vec![leaf_keys]).unwrap();
    let keys = response_list_keys(root_keys).unwrap();
    assert_eq!(keys.len(), 1);
    assert_eq!(keys[0], "a");

    let q = TbonQuery::Histogram(String::from("a"));
    let leaf_hist = ask(q, &leaf_store, "host:2", 10, vec![]).unwrap();
    let q = TbonQuery::Histogram(String::from("a"));
    let root_hist = ask(q, &root_store, "host:1", 20, vec![leaf_hist]).unwrap();
    let (ts, counts) = response_histogram(root_hist).unwrap();
    assert_eq!(total(&counts), 2);
    assert_eq!(ts, 15);
}

#[test]
fn seventeen_leaves() {
    // The first sixteen pivots attach to the root; the seventeenth goes to
    // the first leaf, whose slot is the first with free fanout.
    let mut view = TreeView::new(String::from("root:1"));
    for k in 0..17u32 {
        let addr = format!("leaf{}:1", k + 1);
        let (id, target) = view.pivot(addr).unwrap();
        assert_eq!(id, k + 2);
        if k < 16 {
            assert_eq!(target, "root:1");
        } else {
            assert_eq!(target, "leaf1:1");
        }
    }
    assert_eq!(view.slots[0].fanout, 16);
    assert_eq!(view.slots[1].fanout, 1);
    for slot in &view.slots {
        assert!(slot.fanout <= MAX_FANOUT);
    }

    // Count over that shape: the root sees one subtree of two nodes and
    // fifteen single-node subtrees.
    let store = CounterStore::new();
    let deep_leaf = ask(TbonQuery::Count, &store, "h", 0, vec![]).unwrap();
    let leaf1 = ask(TbonQuery::Count, &store, "h", 0, vec![deep_leaf]).unwrap();
    let mut children = vec![leaf1];
    for _ in 0..15 {
        children.push(ask(TbonQuery::Count, &store, "h", 0, vec![]).unwrap());
    }
    let root = ask(TbonQuery::Count, &store, "h", 0, children).unwrap();
    assert_eq!(response_count(root).unwrap(), 18);
}

#[test]
fn missing_key() {
    let store = store_with(&[("a", 5)]);
    let q = TbonQuery::Histogram(String::from("b"));
    let resp = ask(q, &store, "host:1", 0, vec![]).unwrap();
    let (_, counts) = response_histogram(resp).unwrap();
    assert_eq!(total(&counts), 0);
    let buckets = buckets_from_counts(&counts).unwrap();
    assert!(buckets.is_empty());

    let q = TbonQuery::Values(String::from("b"));
    let resp = ask(q, &store, "host:1", 0, vec![]).unwrap();
    let entries = response_values(resp).unwrap();
    assert!(entries.is_empty());
}

#[test]
fn aggregation_failure() {
    let store = CounterStore::new();
    let failing = TbonResponse::Error(String::from("x"));
    let err = ask(TbonQuery::Count, &store, "host:1", 0, vec![failing]).unwrap_err();
    let msg = err.message();
    assert_eq!(msg, "Failed to run query : x");
    assert!(msg.contains("x"));
}

#[test]
fn first_failing_child_is_reported() {
    // With several failed children, the aggregation reports the first one
    // in fan-out order.
    let store = CounterStore::new();
    let children = vec![
        TbonResponse::Count(3),
        TbonResponse::Error(String::from("first")),
        TbonResponse::Error(String::from("x")),
    ];
    let err = ask(TbonQuery::Count, &store, "host:1", 0, children).unwrap_err();
    assert_eq!(err.message(), "Failed to run query : first");
}

#[test]
fn mismatched_variant_fails_aggregation() {
    let store = CounterStore::new();
    let wrong = TbonResponse::Okay;
    let err = ask(TbonQuery::Count, &store, "host:1", 0, vec![wrong]).unwrap_err();
    assert_eq!(err.message(), "Bad response type in count");
}

#[test]
fn count_overflow_is_refused() {
    let store = CounterStore::new();
    let huge = TbonResponse::Count(u32::MAX);
    let err = ask(TbonQuery::Count, &store, "host:1", 0, vec![huge]).unwrap_err();
    assert_eq!(err.message(), "Count overflow in aggregation");
}

#[test]
fn pivot_capacity_exhaustion() {
    let mut view = TreeView {
        current_id: 1,
        slots: vec![Slot { id: 1, addr: String::from("root:1"), fanout: MAX_FANOUT }],
    };
    let err = view.pivot(String::from("leaf:1")).unwrap_err();
    assert_eq!(err.message(), "Failed to join a root");
    // The minted id is burned: the counter still advances, the directory
    // does not move.
    assert_eq!(view.current_id, 2);
    assert_eq!(view.slots.len(), 1);
    assert_eq!(view.slots[0].fanout, MAX_FANOUT);
    assert_eq!(view.slots[0].addr, "root:1");
}

#[test]
fn screening_keeps_clean_batches() {
    let batch = vec![TbonResponse::Count(1), TbonResponse::Count(2)];
    let kept = screen_children(batch).unwrap();
    assert_eq!(kept.len(), 2);
}

#[test]
fn bootstrap_join_keeps_socket() {
    let mut view = TreeView::new(String::from("root:1"));
    let (resp, drop_conn) = bootstrap_reply(&TbonQuery::Join(7), &mut view);
    assert!(matches!(resp, TbonResponse::Okay));
    assert!(!drop_conn);
}

#[test]
fn bootstrap_pivot_assigns() {
    let mut view = TreeView::new(String::from("root:1"));
    let (resp, drop_conn) = bootstrap_reply(
        &TbonQuery::Pivot(String::from("leaf:1")),
        &mut view,
    );
    assert!(drop_conn);
    match resp {
        TbonResponse::Pivot(id, target) => {
            assert_eq!(id, 2);
            assert_eq!(target, "root:1");
        },
        _ => panic!("expected a pivot response"),
    }
}

#[test]
fn bootstrap_rejects_queries() {
    let mut view = TreeView::new(String::from("root:1"));
    let (resp, drop_conn) = bootstrap_reply(&TbonQuery::Count, &mut view);
    assert!(drop_conn);
    match resp {
        TbonResponse::Error(m) => {
            assert_eq!(m, "Expected only Join or Pivot as first command");
        },
        _ => panic!("expected an error response"),
    }
}

#[test]
fn join_and_pivot_rejected_on_query_channel() {
    let store = CounterStore::new();
    let resp = ask(TbonQuery::Join(2), &store, "h", 0, vec![]).unwrap();
    match resp {
        TbonResponse::Error(m) => {
            assert_eq!(m, "Only server thread should receive Join commands");
        },
        _ => panic!("expected an error response"),
    }
    let resp = ask(TbonQuery::Pivot(String::from("x:1")), &store, "h", 0, vec![]).unwrap();
    match resp {
        TbonResponse::Error(m) => {
            assert_eq!(m, "Only server thread should receive Pivot commands");
        },
        _ => panic!("expected an error response"),
    }
}

#[test]
fn pivot_ids_consecutive_from_two() {
    let mut view = TreeView::new(String::from("root:1"));
    let mut ids = Vec::new();
    for k in 0..40u32 {
        let (id, _) = view.pivot(format!("leaf{}:1", k)).unwrap();
        ids.push(id);
    }
    for (k, id) in ids.iter().enumerate() {
        assert_eq!(*id, k as u32 + 2);
    }
}

#[test]
fn frame_round_trip() {
    let payload: Vec<u8> = vec![1, 2, 3, 250, 0, 7];
    let framed = encode_frame(&payload);
    assert_eq!(&framed[0..8], &[6, 0, 0, 0, 0, 0, 0, 0]);
    assert_eq!(decode_frame(&framed).unwrap(), payload);

    let empty: Vec<u8> = Vec::new();
    let framed = encode_frame(&empty);
    assert_eq!(framed.len(), 8);
    assert_eq!(decode_frame(&framed).unwrap(), empty);
}

#[test]
fn frame_rejects_short_or_mismatched() {
    assert!(decode_frame(&vec![1, 2, 3]).is_none());
    let mut framed = encode_frame(&vec![9, 9]);
    framed.push(0);
    assert!(decode_frame(&framed).is_none());
    assert!(parse_frame_header(&vec![0; 7]).is_none());
    assert_eq!(parse_frame_header(&vec![5, 0, 0, 0, 0, 0, 0, 0]).unwrap(), 5);
}

#[test]
fn query_wire_round_trip() {
    let cases = vec![
        TbonQuery::Join(42),
        TbonQuery::Pivot(String::from("host:4242")),
        TbonQuery::Count,
        TbonQuery::Histogram(String::from("lat\u{00e9}ncy")),
        TbonQuery::ListKeys,
        TbonQuery::Values(String::from("")),
    ];
    for q in cases {
        let bytes = encode_query(&q);
        let back = decode_query(&bytes).unwrap();
        match (&q, &back) {
            (TbonQuery::Join(a), TbonQuery::Join(b)) => assert_eq!(a, b),
            (TbonQuery::Pivot(a), TbonQuery::Pivot(b)) => assert_eq!(a, b),
            (TbonQuery::Count, TbonQuery::Count) => {},
            (TbonQuery::Histogram(a), TbonQuery::Histogram(b)) => assert_eq!(a, b),
            (TbonQuery::ListKeys, TbonQuery::ListKeys) => {},
            (TbonQuery::Values(a), TbonQuery::Values(b)) => assert_eq!(a, b),
            _ => panic!("variant changed across the wire"),
        }
    }
}

#[test]
fn response_wire_round_trip() {
    let cases = vec![
        TbonResponse::Error(String::from("boom")),
        TbonResponse::Okay,
        TbonResponse::Count(18),
        TbonResponse::Pivot(3, String::from("parent:9")),
        TbonResponse::Histogram(123456, vec![0, 5, 0, 7]),
        TbonResponse::ListKeys(vec![String::from("a"), String::from("b")]),
        TbonResponse::Values(vec![(String::from("h:1"), 5), (String::from("h:2"), 7)]),
    ];
    for r in cases {
        let bytes = encode_response(&r);
        let back = decode_response(&bytes).unwrap();
        match (&r, &back) {
            (TbonResponse::Error(a), TbonResponse::Error(b)) => assert_eq!(a, b),
            (TbonResponse::Okay, TbonResponse::Okay) => {},
            (TbonResponse::Count(a), TbonResponse::Count(b)) => assert_eq!(a, b),
            (TbonResponse::Pivot(a, c), TbonResponse::Pivot(b, d)) => {
                assert_eq!(a, b);
                assert_eq!(c, d);
            },
            (TbonResponse::Histogram(a, c), TbonResponse::Histogram(b, d)) => {
                assert_eq!(a, b);
                assert_eq!(c, d);
            },
            (TbonResponse::ListKeys(a), TbonResponse::ListKeys(b)) => assert_eq!(a, b),
            (TbonResponse::Values(a), TbonResponse::Values(b)) => assert_eq!(a, b),
            _ => panic!("variant changed across the wire"),
        }
    }
}

#[test]
fn wire_rejects_malformed() {
    assert!(decode_query(&Vec::new()).is_none());
    assert!(decode_query(&vec![99]).is_none());
    let mut bytes = encode_query(&TbonQuery::Count);
    bytes.push(0);
    assert!(decode_query(&bytes).is_none());
    assert!(decode_response(&vec![2, 1]).is_none());
}

#[test]
fn wire_count_exact_bytes() {
    assert_eq!(encode_query(&TbonQuery::Count), vec![2]);
    assert_eq!(encode_response(&TbonResponse::Count(18)), vec![2, 18, 0, 0, 0]);
}

#[test]
fn histogram_places_small_value_exactly() {
    // Below the cutoff every value has its own unit-width bucket: setting
    // "a"=5 must fill exactly the bucket 5..=5.
    let store = store_with(&[("a", 5)]);
    let q = TbonQuery::Histogram(String::from("a"));
    let resp = ask(q, &store, "host:1", 0, vec![]).unwrap();
    let (_, counts) = response_histogram(resp).unwrap();
    assert_eq!(counts.len(), HIST_BUCKETS);
    assert_eq!(counts[5], 1);
    assert_eq!(total(&counts), 1);
    let buckets = buckets_from_counts(&counts).unwrap();
    assert_eq!(buckets, vec![(5, 5, 1)]);
}

#[test]
fn histogram_mean_timestamp() {
    let store = CounterStore::new();
    let child = TbonResponse::Histogram(200, vec![0; HIST_BUCKETS]);
    let q = TbonQuery::Histogram(String::from("a"));
    let resp = ask(q, &store, "host:1", 100, vec![child]).unwrap();
    let (ts, _) = response_histogram(resp).unwrap();
    assert_eq!(ts, 150);
}

#[test]
fn histogram_bucket_count_mismatch_refused() {
    let store = CounterStore::new();
    let child = TbonResponse::Histogram(0, vec![0; 3]);
    let q = TbonQuery::Histogram(String::from("a"));
    let err = ask(q, &store, "host:1", 0, vec![child]).unwrap_err();
    assert_eq!(err.message(), "Histogram bucket count mismatch");
}

#[test]
fn counters_overwrite_and_read() {
    let mut store = CounterStore::new();
    assert!(store.get("a").is_none());
    store.set_counter("a", 1);
    store.set_counter("b", 2);
    store.set_counter("a", 3);
    assert_eq!(store.get("a").unwrap(), 3);
    assert_eq!(store.get("b").unwrap(), 2);
    assert!(store.get("c").is_none());
    let keys = store.keys();
    assert_eq!(keys.len(), 2);
}

#[test]
fn values_last_write_wins_on_collision() {
    let store = CounterStore::new();
    let first = TbonResponse::Values(vec![(String::from("h:9"), 1)]);
    let second = TbonResponse::Values(vec![(String::from("h:9"), 2)]);
    let q = TbonQuery::Values(String::from("a"));
    let resp = ask(q, &store, "host:1", 0, vec![first, second]).unwrap();
    let entries = response_values(resp).unwrap();
    assert_eq!(entries.len(), 1);
    assert_eq!(entries[0].1, 2);
}

#[test]
fn parse_url_examples() {
    let (prefix, resource) = parse_url("/metric");
    assert_eq!(prefix, "metric");
    assert_eq!(resource, "");

    let (prefix, resource) = parse_url("/");
    assert_eq!(prefix, "/");
    assert_eq!(resource, "");

    let (prefix, resource) = parse_url("/path/to/resource");
    assert_eq!(prefix, "path/to");
    assert_eq!(resource, "resource");

    let (prefix, resource) = parse_url("/keys/");
    assert_eq!(prefix, "keys");
    assert_eq!(resource, "");

    let (prefix, resource) = parse_url("/hist/latency");
    assert_eq!(prefix, "hist");
    assert_eq!(resource, "latency");
}

#[test]
fn routes() {
    assert!(matches!(route_of("/"), Route::MainPage));
    assert!(matches!(route_of("/keys/"), Route::Keys));
    match route_of("/hist/latency") {
        Route::Hist(key) => assert_eq!(key, "latency"),
        _ => panic!("expected the histogram route"),
    }
    match route_of("/values/latency") {
        Route::Values(key) => assert_eq!(key, "latency"),
        _ => panic!("expected the values route"),
    }
    assert!(matches!(route_of("/nope"), Route::NotFound));
    assert!(matches!(route_of("/too/deep/path"), Route::NotFound));
}

#[test]
fn client_info_carries_its_id() {
    let info = ClientInfo { id: 9, cmd: ClientCommand::Reserved };
    assert_eq!(info.id, 9);
    assert!(matches!(info.cmd, ClientCommand::Reserved));
}

#[test]
fn error_messages() {
    assert_eq!(TbonError::CapacityExhausted.message(), "Failed to join a root");
    assert_eq!(
        TbonError::ChildFailed(String::from("why")).message(),
        "Failed to run query : why"
    );
    assert_eq!(TbonError::BadResponse(String::from("msg")).message(), "msg");
}
