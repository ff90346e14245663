use cluster_client::db_client::cluster::{evict_names, PendingWrite, NO_ENDPOINTS};
use cluster_client::errors::{
    should_refresh, AuthCode, AuthFailStatus, ClusterWriteError, Error, PartOutcome, ServerError,
    NOT_LEADER, NOT_LEADER_HINT,
};
use cluster_client::model::WriteResponse;

fn names(list: &[&str]) -> Vec<String> {
    list.iter().map(|n| n.to_string()).collect()
}

fn server(code: u32, msg: &str) -> Error {
    Error::Server(ServerError { code, msg: msg.to_string() })
}

#[test]
fn refresh_on_not_leader() {
    assert!(should_refresh(130, "not leader"));
    assert!(should_refresh(NOT_LEADER, NOT_LEADER_HINT));
    assert!(should_refresh(130, "shard 7: not leader any more"));
}

#[test]
fn no_refresh_on_other_code_or_message() {
    assert!(!should_refresh(131, "not leader"));
    assert!(!should_refresh(500, "not leader"));
    assert!(!should_refresh(0, "not leader"));
    assert!(!should_refresh(130, ""));
    assert!(!should_refresh(130, "not  leader"));
    assert!(!should_refresh(130, "Not Leader"));
    assert!(!should_refresh(130, "not leade"));
    assert!(!should_refresh(130, "internal error"));
}

#[test]
fn only_stale_server_failures_call_for_eviction() {
    assert!(server(130, "not leader").stale_route());
    assert!(!server(500, "internal error").stale_route());
    assert!(!Error::Rpc(tonic::Status::new(tonic::Code::Unavailable, "not leader")).stale_route());
    assert!(!Error::Connect { addr: "1.1.1.1:1111".to_string(), source: "not leader".to_string() }
        .stale_route());
    assert!(!Error::Client("not leader".to_string()).stale_route());
    assert!(!Error::AuthFail(AuthFailStatus {
        code: AuthCode::InvalidTokenMeta,
        msg: "not leader".to_string()
    })
    .stale_route());
    assert!(!Error::Unknown("not leader".to_string()).stale_route());
    let nested = ClusterWriteError {
        ok: (Vec::new(), WriteResponse::new(0, 0)),
        errors: vec![(names(&["cpu"]), server(130, "not leader"))],
    };
    assert!(!Error::ClusterWriteError(nested).stale_route());
}

#[test]
fn auth_codes_have_their_numbers() {
    assert_eq!(AuthCode::Okay.as_u32(), 0);
    assert_eq!(AuthCode::InvalidTenantMeta.as_u32(), 1);
    assert_eq!(AuthCode::InvalidTokenMeta.as_u32(), 2);
}

#[test]
fn client_error_carries_its_message() {
    match Error::client("no such thing") {
        Error::Client(msg) => assert_eq!(msg, "no such thing"),
        other => panic!("unexpected kind: {:?}", other),
    }
}

#[test]
fn merge_of_nothing_is_all_ok() {
    let merged = ClusterWriteError::from(Vec::new());
    assert!(merged.all_ok());
    assert!(merged.ok.0.is_empty());
    assert_eq!(merged.ok.1, WriteResponse::new(0, 0));
    assert!(merged.errors.is_empty());
}

#[test]
fn merge_adds_rows_of_successes() {
    let results: Vec<PartOutcome> = vec![
        (names(&["cpu", "disk"]), Ok(WriteResponse::new(3, 1))),
        (names(&["mem"]), Ok(WriteResponse::new(10, 0))),
        (names(&["net"]), Ok(WriteResponse::new(0, 7))),
    ];
    let merged = ClusterWriteError::from(results);
    assert!(merged.all_ok());
    assert_eq!(merged.ok.0, names(&["cpu", "disk", "mem", "net"]));
    assert_eq!(merged.ok.1, WriteResponse::new(13, 8));
    assert_eq!(merged.ok.1.success, 13);
    assert_eq!(merged.ok.1.failed, 8);
}

#[test]
fn merge_keeps_failures_in_order_and_apart() {
    let results: Vec<PartOutcome> = vec![
        (names(&["a"]), Err(server(500, "boom"))),
        (names(&["b", "c"]), Ok(WriteResponse::new(2, 5))),
        (names(&["d"]), Err(Error::Rpc(tonic::Status::new(tonic::Code::DeadlineExceeded, "slow")))),
        (names(&["e"]), Ok(WriteResponse::new(4, 0))),
    ];
    let merged = ClusterWriteError::from(results);
    assert!(!merged.all_ok());
    assert_eq!(merged.ok.0, names(&["b", "c", "e"]));
    assert_eq!(merged.ok.1, WriteResponse::new(6, 5));
    assert_eq!(merged.errors.len(), 2);
    assert_eq!(merged.errors[0].0, names(&["a"]));
    assert!(matches!(&merged.errors[0].1, Error::Server(e) if e.code == 500 && e.msg == "boom"));
    assert_eq!(merged.errors[1].0, names(&["d"]));
    match &merged.errors[1].1 {
        Error::Rpc(status) => {
            assert_eq!(status.code(), tonic::Code::DeadlineExceeded);
            assert_eq!(status.message(), "slow");
        }
        other => panic!("unexpected kind: {:?}", other),
    }
}

#[test]
fn merge_ignores_the_rows_of_nothing_but_successes() {
    let results: Vec<PartOutcome> =
        vec![(names(&["a"]), Err(server(130, "not leader"))), (names(&["b"]), Err(server(1, "x")))];
    let merged = ClusterWriteError::from(results);
    assert!(!merged.all_ok());
    assert!(merged.ok.0.is_empty());
    assert_eq!(merged.ok.1, WriteResponse::new(0, 0));
    assert_eq!(merged.errors.len(), 2);
}

#[test]
fn merge_reaches_the_largest_total() {
    let results: Vec<PartOutcome> = vec![
        (names(&["a"]), Ok(WriteResponse::new(u32::MAX - 1, 0))),
        (names(&["b"]), Ok(WriteResponse::new(1, u32::MAX))),
    ];
    let merged = ClusterWriteError::from(results);
    assert_eq!(merged.ok.1, WriteResponse::new(u32::MAX, u32::MAX));
}

#[test]
fn evict_names_are_those_of_stale_parts() {
    let outcomes: Vec<PartOutcome> = vec![
        (names(&["a", "b"]), Err(server(130, "not leader"))),
        (names(&["c"]), Ok(WriteResponse::new(1, 0))),
        (names(&["d"]), Err(server(500, "not leader"))),
        (names(&["e"]), Err(Error::Rpc(tonic::Status::new(tonic::Code::Unavailable, "not leader")))),
        (names(&["f"]), Err(server(130, "node is not leader of f"))),
        (names(&["g"]), Err(Error::Client(NO_ENDPOINTS.to_string()))),
    ];
    assert_eq!(evict_names(&outcomes), names(&["a", "b", "f"]));
    assert_eq!(outcomes.len(), 6);
}

#[test]
fn evict_names_of_nothing() {
    assert!(evict_names(&Vec::new()).is_empty());
}

#[test]
fn partial_write_reports_both_sides() {
    // "cpu" went to a node that wrote one row, "mem" to a node that is not the leader.
    let pending = PendingWrite { parts: vec![names(&["cpu"]), names(&["mem"])], unroutable: Vec::new() };
    let results = vec![Ok(WriteResponse::new(1, 0)), Err(server(130, "not leader"))];
    assert!(pending.accepts_results(&results));
    let outcome = pending.finish(results);
    assert_eq!(outcome.evicts, names(&["mem"]));
    match outcome.result {
        Err(Error::ClusterWriteError(merged)) => {
            assert!(!merged.all_ok());
            assert_eq!(merged.ok.0, names(&["cpu"]));
            assert_eq!(merged.ok.1, WriteResponse { success: 1, failed: 0 });
            assert_eq!(merged.errors.len(), 1);
            assert_eq!(merged.errors[0].0, names(&["mem"]));
            assert!(matches!(&merged.errors[0].1, Error::Server(e) if e.code == 130));
        }
        other => panic!("unexpected result: {:?}", other),
    }
}

#[test]
fn write_of_all_successes_returns_the_sums() {
    let pending = PendingWrite {
        parts: vec![names(&["cpu", "disk"]), names(&["mem"]), names(&["net"])],
        unroutable: Vec::new(),
    };
    let results =
        vec![Ok(WriteResponse::new(5, 1)), Ok(WriteResponse::new(7, 2)), Ok(WriteResponse::new(0, 0))];
    assert!(pending.accepts_results(&results));
    let outcome = pending.finish(results);
    assert!(outcome.evicts.is_empty());
    match outcome.result {
        Ok(resp) => assert_eq!(resp, WriteResponse::new(12, 3)),
        Err(e) => panic!("unexpected failure: {:?}", e),
    }
}

#[test]
fn unroutable_names_fail_on_the_callers_side() {
    let pending = PendingWrite { parts: vec![names(&["cpu"])], unroutable: names(&["ghost", "wraith"]) };
    let results = vec![Ok(WriteResponse::new(2, 0))];
    let outcome = pending.finish(results);
    assert!(outcome.evicts.is_empty());
    match outcome.result {
        Err(Error::ClusterWriteError(merged)) => {
            assert_eq!(merged.ok.0, names(&["cpu"]));
            assert_eq!(merged.ok.1, WriteResponse::new(2, 0));
            assert_eq!(merged.errors.len(), 1);
            assert_eq!(merged.errors[0].0, names(&["ghost", "wraith"]));
            match &merged.errors[0].1 {
                Error::Client(msg) => {
                    assert_eq!(msg, "Metrics don't have corresponding endpoints");
                    assert!(msg.contains("corresponding endpoint"));
                }
                other => panic!("unexpected kind: {:?}", other),
            }
        }
        other => panic!("unexpected result: {:?}", other),
    }
}

#[test]
fn empty_write_succeeds_with_no_rows() {
    let pending = PendingWrite { parts: Vec::new(), unroutable: Vec::new() };
    let outcome = pending.finish(Vec::new());
    assert!(outcome.evicts.is_empty());
    assert!(matches!(outcome.result, Ok(resp) if resp == WriteResponse::new(0, 0)));
}

#[test]
fn outcomes_pair_names_with_answers_in_order() {
    let pending = PendingWrite {
        parts: vec![names(&["a"]), names(&["b", "c"]), names(&["d"])],
        unroutable: names(&["z"]),
    };
    let results =
        vec![Ok(WriteResponse::new(1, 0)), Err(server(7, "seven")), Ok(WriteResponse::new(3, 0))];
    let outcomes = pending.outcomes(results);
    assert_eq!(outcomes.len(), 4);
    assert_eq!(outcomes[0].0, names(&["a"]));
    assert!(matches!(outcomes[0].1, Ok(resp) if resp.success == 1));
    assert_eq!(outcomes[1].0, names(&["b", "c"]));
    assert!(matches!(&outcomes[1].1, Err(Error::Server(e)) if e.code == 7));
    assert_eq!(outcomes[2].0, names(&["d"]));
    assert!(matches!(outcomes[2].1, Ok(resp) if resp.success == 3));
    assert_eq!(outcomes[3].0, names(&["z"]));
    assert!(matches!(&outcomes[3].1, Err(Error::Client(msg)) if msg == NO_ENDPOINTS));
}

#[test]
fn outcomes_without_unroutable_names_add_no_part() {
    let pending = PendingWrite { parts: vec![names(&["a"])], unroutable: Vec::new() };
    let outcomes = pending.outcomes(vec![Ok(WriteResponse::new(1, 1))]);
    assert_eq!(outcomes.len(), 1);
}

#[test]
fn answers_must_match_the_parts_and_fit_the_counters() {
    let pending = PendingWrite { parts: vec![names(&["a"]), names(&["b"])], unroutable: Vec::new() };
    assert!(!pending.accepts_results(&vec![Ok(WriteResponse::new(1, 0))]));
    assert!(!pending.accepts_results(&Vec::new()));
    assert!(pending.accepts_results(&vec![Ok(WriteResponse::new(1, 0)), Err(server(1, "x"))]));
    assert!(pending.accepts_results(&vec![
        Ok(WriteResponse::new(u32::MAX, 0)),
        Ok(WriteResponse::new(0, u32::MAX))
    ]));
    assert!(!pending
        .accepts_results(&vec![Ok(WriteResponse::new(u32::MAX, 0)), Ok(WriteResponse::new(1, 0))]));
    assert!(!pending
        .accepts_results(&vec![Ok(WriteResponse::new(0, u32::MAX)), Ok(WriteResponse::new(0, 1))]));
    assert!(pending
        .accepts_results(&vec![Ok(WriteResponse::new(u32::MAX, 0)), Err(server(1, "x"))]));
}

#[test]
fn eviction_spares_transport_and_auth_failures() {
    let pending = PendingWrite {
        parts: vec![names(&["a"]), names(&["b"]), names(&["c"]), names(&["d"]), names(&["e"])],
        unroutable: names(&["f"]),
    };
    let results = vec![
        Err(Error::Rpc(tonic::Status::new(tonic::Code::Unavailable, "not leader"))),
        Err(Error::Connect { addr: "b:1".to_string(), source: "timeout".to_string() }),
        Err(Error::AuthFail(AuthFailStatus { code: AuthCode::InvalidTenantMeta, msg: "who".to_string() })),
        Err(server(130, "not leader")),
        Ok(WriteResponse::new(1, 0)),
    ];
    let outcome = pending.finish(results);
    assert_eq!(outcome.evicts, names(&["d"]));
    match outcome.result {
        Err(Error::ClusterWriteError(merged)) => {
            assert_eq!(merged.ok.0, names(&["e"]));
            assert_eq!(merged.errors.len(), 5);
            let mut all: Vec<String> = merged.ok.0.clone();
            for (part, _) in &merged.errors {
                all.extend(part.iter().cloned());
            }
            all.sort();
            assert_eq!(all, names(&["a", "b", "c", "d", "e", "f"]));
        }
        other => panic!("unexpected result: {:?}", other),
    }
}

#[test]
fn merge_does_not_depend_on_the_order_of_the_parts() {
    let parts = |order: [usize; 4]| -> Vec<PartOutcome> {
        order
            .iter()
            .map(|k| match k {
                0 => (names(&["a"]), Ok(WriteResponse::new(1, 10))),
                1 => (names(&["b", "c"]), Err(server(130, "not leader"))),
                2 => (names(&["d"]), Ok(WriteResponse::new(2, 20))),
                _ => (names(&["e"]), Err(server(9, "nine"))),
            })
            .collect()
    };
    let one = ClusterWriteError::from(parts([0, 1, 2, 3]));
    let other = ClusterWriteError::from(parts([3, 2, 1, 0]));
    assert_eq!(one.ok.1, WriteResponse::new(3, 30));
    assert_eq!(other.ok.1, one.ok.1);
    assert_eq!(one.ok.0, names(&["a", "d"]));
    assert_eq!(other.ok.0, names(&["d", "a"]));
    assert_eq!(one.errors.len(), 2);
    assert_eq!(other.errors.len(), 2);
    assert_eq!(one.errors[0].0, other.errors[1].0);
    assert_eq!(one.errors[1].0, other.errors[0].0);
}
