use gazflow::boundary::{detect_shortpipe_boundary_pairs, shortpipe_partner_for};
use gazflow::connectivity::NetworkArc;
use gazflow::labels::ConnectionKind;

fn arc(id: &str, from: &str, to: &str, kind: ConnectionKind) -> NetworkArc {
    NetworkArc {
        id: id.to_string(),
        from: from.to_string(),
        to: to.to_string(),
        kind,
        is_open: true,
        opening_positive: true,
    }
}

#[test]
fn test_detect_shortpipe_boundary_pairs() {
    let net = vec![arc("shortPipe_55", "sink_122", "source_10", ConnectionKind::ShortPipe)];
    let pairs = detect_shortpipe_boundary_pairs(&net);
    assert_eq!(pairs.len(), 1);
    assert_eq!(pairs[0].sink_id, "sink_122");
    assert_eq!(pairs[0].source_id, "source_10");
}

#[test]
fn pairs_are_sorted_by_sink_then_source_stably() {
    let net = vec![
        arc("a", "source_2", "sink_9", ConnectionKind::ShortPipe),
        arc("b", "sink_1", "source_3", ConnectionKind::ShortPipe),
        arc("c", "sink_1", "source_1", ConnectionKind::ShortPipe),
        arc("d", "sink_1", "source_3", ConnectionKind::ShortPipe),
        arc("e", "sink_1", "source_0", ConnectionKind::Pipe),
        arc("f", "sink_1", "sink_2", ConnectionKind::ShortPipe),
    ];
    let pairs = detect_shortpipe_boundary_pairs(&net);
    let ids: Vec<&str> = pairs.iter().map(|p| p.shortpipe_id.as_str()).collect();
    assert_eq!(ids, vec!["c", "b", "d", "a"]);
    assert_eq!(pairs[3].sink_id, "sink_9");
    assert_eq!(pairs[3].source_id, "source_2");
}

#[test]
fn partner_is_the_other_end_of_the_first_pair() {
    let net = vec![
        arc("a", "source_2", "sink_9", ConnectionKind::ShortPipe),
        arc("b", "sink_1", "source_3", ConnectionKind::ShortPipe),
        arc("c", "sink_0", "source_3", ConnectionKind::ShortPipe),
        arc("d", "sink_5", "innode_1", ConnectionKind::ShortPipe),
    ];
    assert_eq!(shortpipe_partner_for(&net, "sink_9"), Some("source_2".to_string()));
    assert_eq!(shortpipe_partner_for(&net, "source_2"), Some("sink_9".to_string()));
    assert_eq!(shortpipe_partner_for(&net, "source_3"), Some("sink_0".to_string()));
    assert_eq!(shortpipe_partner_for(&net, "sink_5"), None);
    assert_eq!(shortpipe_partner_for(&net, "innode_1"), None);
}
