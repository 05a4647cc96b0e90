use gravel_gateway::exposition::{check_number, check_timestamp, parse, read_label_value, ParseError};
use gravel_gateway::labels::{identity_key, labels_from_path, union_labels, LabelList};
use gravel_gateway::router::{hash_extend, mix, peer_score, ClusterConfig, FNV_OFFSET};
use gravel_gateway::routes::{forward_url, parse_and_merge, route_push, IngestAction, RoutesConfig};
use gravel_gateway::store::{AggregationError, MetricKind, MetricStore};

fn b(s: &str) -> Vec<u8> {
    s.as_bytes().to_vec()
}

fn text(v: &[u8]) -> String {
    String::from_utf8(v.to_vec()).unwrap()
}

fn push(store: &mut MetricStore, body: &str, tail: &str) -> Result<(), AggregationError> {
    let labels = labels_from_path(&b(tail));
    parse_and_merge(store, &b(body), &labels)
}

#[test]
fn path_labels_pair_segments() {
    let l = labels_from_path(&b("job/foo/instance/bar"));
    assert_eq!(l, vec![(b("instance"), b("bar")), (b("job"), b("foo"))]);
}

#[test]
fn path_labels_unpaired_and_empty() {
    let l = labels_from_path(&b("job/foo/zone"));
    assert_eq!(l, vec![(b("job"), b("foo")), (b("zone"), b(""))]);
    assert!(labels_from_path(&b("")).is_empty());
    let l = labels_from_path(&b("job/a/job/b"));
    assert_eq!(l, vec![(b("job"), b("b"))]);
    let l = labels_from_path(&b("job/a//x/y"));
    assert_eq!(l, vec![(b("job"), b("a"))]);
}

#[test]
fn last_write_wins() {
    let mut s = MetricStore::new();
    push(&mut s, "m{job=\"a\"} 1\n", "").unwrap();
    push(&mut s, "m{job=\"a\"} 2\n", "").unwrap();
    assert_eq!(text(&s.render()), "# TYPE m untyped\nm{job=\"a\"} 2\n");
}

#[test]
fn path_labels_override_body_labels() {
    let mut s = MetricStore::new();
    push(&mut s, "up{job=\"body\"} 1\n", "job/override").unwrap();
    assert_eq!(text(&s.render()), "# TYPE up untyped\nup{job=\"override\"} 1\n");
}

#[test]
fn type_conflict_rejects_whole_push() {
    let mut s = MetricStore::new();
    push(&mut s, "# TYPE x counter\nx 1\n", "").unwrap();
    let before = s.render();
    let r = push(&mut s, "# TYPE y gauge\ny 5\n# TYPE x gauge\nx 2\n", "");
    assert!(matches!(r, Err(AggregationError::TypeConflict(ref n)) if n == &b("x")));
    assert_eq!(s.render(), before);
}

#[test]
fn untyped_push_into_typed_family() {
    let mut s = MetricStore::new();
    push(&mut s, "# TYPE x counter\nx 1\n", "").unwrap();
    push(&mut s, "x 3\n", "").unwrap();
    assert_eq!(text(&s.render()), "# TYPE x counter\nx 3\n");
}

#[test]
fn render_order_ignores_insertion_order() {
    let mut a = MetricStore::new();
    push(&mut a, "b{z=\"1\"} 1\nb{a=\"1\"} 2\n", "").unwrap();
    push(&mut a, "a 3\n", "").unwrap();
    let mut c = MetricStore::new();
    push(&mut c, "a 3\n", "").unwrap();
    push(&mut c, "b{a=\"1\"} 2\nb{z=\"1\"} 1\n", "").unwrap();
    assert_eq!(a.render(), c.render());
    assert_eq!(a.render(), a.render());
    assert_eq!(
        text(&a.render()),
        "# TYPE a untyped\na 3\n# TYPE b untyped\nb{a=\"1\"} 2\nb{z=\"1\"} 1\n"
    );
}

#[test]
fn repush_is_idempotent() {
    let body = "# HELP r requests\n# TYPE r counter\nr{code=\"200\"} 7 1700\nr{code=\"500\"} 1\n";
    let mut once = MetricStore::new();
    push(&mut once, body, "job/api").unwrap();
    let mut twice = MetricStore::new();
    push(&mut twice, body, "job/api").unwrap();
    push(&mut twice, body, "job/api").unwrap();
    assert_eq!(once.render(), twice.render());
}

#[test]
fn help_first_write_wins() {
    let mut s = MetricStore::new();
    push(&mut s, "# HELP h first\nh 1\n", "").unwrap();
    push(&mut s, "# HELP h second\nh 2\n", "").unwrap();
    assert_eq!(text(&s.render()), "# HELP h first\n# TYPE h untyped\nh 2\n");
}

#[test]
fn render_then_parse_round_trip() {
    let mut s = MetricStore::new();
    push(&mut s, "# HELP q queue depth\n# TYPE q gauge\nq{path=\"a\\\"b\\\\c\\nd\"} 1.5e3 12\nq 4\n", "job/w/instance/i1").unwrap();
    push(&mut s, "z -Inf\n", "").unwrap();
    let out = s.render();
    let mut again = MetricStore::new();
    parse_and_merge(&mut again, &out, &Vec::new()).unwrap();
    assert_eq!(again.render(), out);
}

#[test]
fn disjoint_pushes_in_either_order() {
    let bodies = ["f1 1\n", "f2{a=\"x\"} 2\n", "# TYPE f3 gauge\nf3 3\n"];
    let mut fwd = MetricStore::new();
    for body in bodies.iter() {
        push(&mut fwd, body, "job/j").unwrap();
    }
    let mut rev = MetricStore::new();
    for body in bodies.iter().rev() {
        push(&mut rev, body, "job/j").unwrap();
    }
    assert_eq!(fwd.render(), rev.render());
    assert_eq!(fwd.families.len(), 3);
}

#[test]
fn parse_errors() {
    assert_eq!(parse(&b("m{a=\"x} 1\n")).err(), Some(ParseError::MalformedLine(0)));
    assert_eq!(parse(&b("ok 1\nm abc\n")).err(), Some(ParseError::InvalidValue(1)));
    assert_eq!(parse(&b("m 1 12x\n")).err(), Some(ParseError::InvalidTimestamp(0)));
    assert_eq!(parse(&b("# TYPE m weird\n")).err(), Some(ParseError::UnknownType(0)));
    assert_eq!(
        parse(&b("# TYPE m counter\n# TYPE m gauge\n")).err(),
        Some(ParseError::TypeRedeclared(1))
    );
    assert_eq!(parse(&b("m{a=\"x\\q\"} 1\n")).err(), Some(ParseError::MalformedLine(0)));
}

#[test]
fn parse_families_in_first_seen_order() {
    let fs = parse(&b("# comment\n\nb 1\na{x=\"1\",y=\"2\"} 2\nb{k=\"v\"} 3\n# TYPE a summary\n")).unwrap();
    assert_eq!(fs.len(), 2);
    assert_eq!(fs[0].name, b("b"));
    assert_eq!(fs[0].samples.len(), 2);
    assert_eq!(fs[0].kind, MetricKind::Untyped);
    assert_eq!(fs[1].name, b("a"));
    assert_eq!(fs[1].kind, MetricKind::Summary);
    assert_eq!(fs[1].samples[0].labels, vec![(b("x"), b("1")), (b("y"), b("2"))]);
}

#[test]
fn number_syntax() {
    for ok in ["1", "-2.5", "+3.", ".5", "1e10", "2.5E-3", "Inf", "-Inf", "+Inf", "NaN"] {
        assert!(check_number(&b(ok)), "{}", ok);
    }
    for bad in ["", "+", ".", "1e", "e5", "1.2.3", "inf", "1x"] {
        assert!(!check_number(&b(bad)), "{}", bad);
    }
    assert!(check_timestamp(&b("-17")));
    assert!(!check_timestamp(&b("-")));
    assert!(!check_timestamp(&b("1.5")));
}

#[test]
fn label_value_unescapes() {
    let line = b("\"a\\\\b\\\"c\\nd\" rest");
    let (v, end) = read_label_value(&line, 1).unwrap();
    assert_eq!(v, b("a\\b\"c\nd"));
    assert_eq!(end, 12);
    assert!(read_label_value(&b("\"open"), 1).is_none());
}

#[test]
fn identity_encodes_sorted_union() {
    let body: LabelList = vec![(b("b"), b("2")), (b("job"), b("body"))];
    let extra: LabelList = vec![(b("a"), b("q\"")), (b("job"), b("x"))];
    let u = union_labels(&body, &extra);
    assert_eq!(u, vec![(b("a"), b("q\"")), (b("b"), b("2")), (b("job"), b("x"))]);
    assert_eq!(text(&identity_key(&body, &extra)), "{a=\"q\\\"\",b=\"2\",job=\"x\"}");
    assert!(identity_key(&Vec::new(), &Vec::new()).is_empty());
}

#[test]
fn fnv_known_values() {
    assert_eq!(hash_extend(FNV_OFFSET, &Vec::new()), 0xcbf29ce484222325);
    assert_eq!(hash_extend(FNV_OFFSET, &b("a")), 0xaf63dc4c8601ec8c);
    assert_eq!(peer_score(&b("a"), &b("")), mix(hash_extend(FNV_OFFSET, &b("a/"))));
    assert_eq!(mix(0), 0);
    assert_eq!(mix(1), 0xb456bcfc34c2cb2c);
}

fn cluster() -> ClusterConfig {
    ClusterConfig::new(b("http://n1"), vec![b("http://n1"), b("http://n2"), b("http://n3")])
}

#[test]
fn routing_is_stable() {
    let c = cluster();
    for key in ["", "api", "batch", "web"] {
        let first = c.get_peer_for_key(&b(key));
        assert_eq!(c.get_peer_for_key(&b(key)), first);
        assert_eq!(cluster().get_peer_for_key(&b(key)), first);
        assert!(c.peers.contains(&first));
    }
}

#[test]
fn joining_peer_only_takes_keys() {
    let small = ClusterConfig::new(b("http://n1"), vec![b("http://n1"), b("http://n2")]);
    let big = ClusterConfig::new(b("http://n1"), vec![b("http://n1"), b("http://n2"), b("http://n3")]);
    for i in 0..200u32 {
        let key = format!("job{}", i).into_bytes();
        let after = big.get_peer_for_key(&key);
        assert!(after == small.get_peer_for_key(&key) || after == b("http://n3"));
    }
}

#[test]
fn self_added_to_peers() {
    let c = ClusterConfig::new(b("me"), vec![b("other")]);
    assert_eq!(c.peers, vec![b("other"), b("me")]);
    assert!(c.is_self(&b("me")));
    assert!(!c.is_self(&b("other")));
}

#[test]
fn route_push_forwards_or_applies() {
    let local = RoutesConfig { cluster_conf: None };
    let (labels, action) = route_push(&local, &b("job/x"));
    assert_eq!(labels, vec![(b("job"), b("x"))]);
    assert!(matches!(action, IngestAction::Local));
    let conf = RoutesConfig { cluster_conf: Some(cluster()) };
    let mut saw_forward = false;
    let mut saw_local = false;
    for i in 0..50u32 {
        let tail = format!("job/j{}", i).into_bytes();
        let owner = cluster().get_peer_for_key(&format!("j{}", i).into_bytes());
        match route_push(&conf, &tail).1 {
            IngestAction::Local => {
                saw_local = true;
                assert_eq!(owner, b("http://n1"));
            }
            IngestAction::Forward(p) => {
                saw_forward = true;
                assert_eq!(p, owner);
                assert_ne!(p, b("http://n1"));
            }
        }
    }
    assert!(saw_forward && saw_local);
}

#[test]
fn forward_url_joins_peer_and_tail() {
    assert_eq!(forward_url(&b("http://n2:4278/metrics"), &b("job/x")), b("http://n2:4278/metrics/job/x"));
}

#[test]
fn parse_error_leaves_store() {
    let mut s = MetricStore::new();
    push(&mut s, "a 1\n", "").unwrap();
    let before = s.render();
    assert!(matches!(push(&mut s, "b 1\nc x\n", ""), Err(AggregationError::Parse(ParseError::InvalidValue(1)))));
    assert_eq!(s.render(), before);
}

#[test]
fn blank_and_plain_comments_parse_to_nothing() {
    assert_eq!(parse(&b("")).unwrap().len(), 0);
    assert_eq!(parse(&b("\n   \n\n")).unwrap().len(), 0);
    assert_eq!(parse(&b("# just a note\n  # another\n")).unwrap().len(), 0);
}
