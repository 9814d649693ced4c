use hopper::coordinator::{
    argmax_last, parse_bootstrap, poll, Coordinator, CoordinatorError, Poll, DISCOVERY_TIMEOUT,
};
use hopper::stage::Activation;
use hopper::tensor::Matrix;
use hopper::verify::{log_execution, rel_l2};
use hopper::wire::{
    array2_to_proto, proto_to_array2, request_input_to_model, stage_request, ActivationStream, Input,
    StageResponse, WireActivation, WireError,
};
use hopper::worker::respond;

fn matrix(rows: &[&[f32]]) -> Matrix {
    Matrix {
        cols: rows[0].len(),
        rows: rows
            .iter()
            .map(|r| r.iter().map(|x| x.to_bits()).collect())
            .collect(),
    }
}

#[test]
fn activations_travel_in_half_precision() {
    let m = matrix(&[&[1.0, -2.5, 0.1], &[65504.0, 1e-7, 1e6]]);
    let wire = array2_to_proto(&m);
    assert_eq!((wire.n_tokens, wire.d_model), (2, 3));
    assert_eq!(wire.data.len(), 2 * 6);
    assert_eq!(&wire.data[..4], &[0x00, 0x3c, 0x00, 0xc1]);
    let back = proto_to_array2(&wire).unwrap();
    let value = |r: usize, c: usize| f32::from_bits(back.rows[r][c]);
    assert_eq!(value(0, 0), 1.0);
    assert_eq!(value(0, 1), -2.5);
    assert!((value(0, 2) - 0.1).abs() < 1e-4);
    assert_eq!(value(1, 0), 65504.0);
    assert_eq!(value(1, 2), f32::INFINITY);
    // what arrived travels on unchanged
    assert_eq!(array2_to_proto(&back).data, wire.data);
}

#[test]
fn little_is_lost_on_the_wire() {
    let low = 2f32.powi(-14);
    let row = [
        0.1f32, -0.3, 1.0005, 2.5e-3, -7.7, 1234.567, 65504.0, -65503.0, 3.0e-4, low, 0.0, -0.0,
    ];
    let sent = matrix(&[&row[..6], &row[6..]]);
    let arrived = proto_to_array2(&array2_to_proto(&sent)).unwrap();
    for (xs, ys) in sent.rows.iter().zip(&arrived.rows) {
        for (&x, &y) in xs.iter().zip(ys) {
            let (x, y) = (f32::from_bits(x), f32::from_bits(y));
            assert!(2048.0 * (x as f64 - y as f64).abs() <= (x as f64).abs(), "{x} {y}");
            assert_eq!(x.is_sign_negative(), y.is_sign_negative());
        }
    }
    let error = f64::from_bits(rel_l2(&arrived, &sent));
    assert!(error > 0.0 && error <= 2f64.powi(-11), "{error}");
    // tiny entries among others do little harm
    let mixed = matrix(&[&[0.5, 1.0e-5, -3.0e-6], &[5.0e-8, 0.25, 1.1e-7]]);
    let arrived = proto_to_array2(&array2_to_proto(&mixed)).unwrap();
    let error = f64::from_bits(rel_l2(&arrived, &mixed));
    assert!(error <= 2f64.powi(-10), "{error}");
    // on their own they may be lost
    let lost = matrix(&[&[2f32.powi(-26)]]);
    let arrived = proto_to_array2(&array2_to_proto(&lost)).unwrap();
    assert_eq!(arrived.rows, vec![vec![0]]);
    assert!(f64::from_bits(rel_l2(&arrived, &lost)) > 0.9);
    // below 2^-14 halves are 2^-24 apart
    let small = matrix(&[&[1.0e-5, 5.0e-8, -2.9e-8, 6.0e-5]]);
    let arrived = proto_to_array2(&array2_to_proto(&small)).unwrap();
    for (&x, &y) in small.rows[0].iter().zip(&arrived.rows[0]) {
        let lost = (f32::from_bits(x) as f64 - f32::from_bits(y) as f64).abs();
        assert!(lost <= 2f64.powi(-25));
    }
}

#[test]
fn a_wrong_length_is_refused() {
    let wire = WireActivation {
        n_tokens: 2,
        d_model: 3,
        data: vec![0; 11],
    };
    assert_eq!(
        proto_to_array2(&wire).unwrap_err(),
        WireError::Length {
            bytes: 11,
            rows: 2,
            cols: 3
        }
    );
    let huge = WireActivation {
        n_tokens: u32::MAX,
        d_model: u32::MAX,
        data: vec![0; 2],
    };
    assert!(proto_to_array2(&huge).is_err());
}

#[test]
fn requests_carry_their_input() {
    let request = stage_request("sess", 3, 9, &Activation::Ids(vec![7, 255]));
    assert_eq!(request.session, "sess");
    assert_eq!((request.stage_id, request.seq_pos), (3, 9));
    match request_input_to_model(&request).unwrap() {
        Activation::Ids(ids) => assert_eq!(ids, vec![7, 255]),
        other => panic!("{other:?}"),
    }
    let request = stage_request("sess", 3, 9, &Activation::Hidden(matrix(&[&[0.5, 2.0]])));
    match request_input_to_model(&request).unwrap() {
        Activation::Hidden(h) => assert_eq!(h.rows, matrix(&[&[0.5, 2.0]]).rows),
        other => panic!("{other:?}"),
    }
    let empty = ActivationStream {
        session: String::new(),
        stage_id: 0,
        seq_pos: 0,
        input: None,
    };
    assert!(matches!(
        request_input_to_model(&empty),
        Err(WireError::MissingInput)
    ));
}

#[test]
fn workers_respond_with_their_claim() {
    let out = matrix(&[&[1.0, 2.0]]);
    let claim = log_execution(
        "sess",
        3,
        "w",
        Activation::Ids(vec![1]),
        matrix(&[&[1.0, 2.0]]),
        "n".to_string(),
    );
    let commitment = claim.commitment.clone();
    let response = respond(3, 4, &out, claim, 42);
    assert!(response.is_logits);
    assert_eq!(response.commitment, commitment);
    assert_eq!(response.nonce, "n");
    assert_eq!(response.flops, 42);
    assert_eq!(response.output.unwrap().data, vec![0x00, 0x3c, 0x00, 0x40]);
}

#[test]
fn bootstrap_addresses_are_split_at_the_first_at() {
    let (peer, address) = parse_bootstrap("12D3@/ip4/127.0.0.1/udp/1/quic-v1").unwrap();
    assert_eq!(peer, "12D3");
    assert_eq!(address, "/ip4/127.0.0.1/udp/1/quic-v1");
    assert_eq!(
        parse_bootstrap("a@b@c").unwrap(),
        ("a".to_string(), "b@c".to_string())
    );
    assert_eq!(parse_bootstrap("@").unwrap(), (String::new(), String::new()));
    assert!(parse_bootstrap("nowhere").is_none());
}

#[test]
fn providers_are_looked_for_until_the_time_is_over() {
    assert_eq!(poll(0, 0), Poll::Again);
    assert_eq!(poll(0, DISCOVERY_TIMEOUT), Poll::Again);
    assert_eq!(poll(0, DISCOVERY_TIMEOUT + 1), Poll::GiveUp);
    assert_eq!(poll(1, DISCOVERY_TIMEOUT + 1), Poll::Found);
}

fn answer(rows: &[&[f32]], is_logits: bool) -> StageResponse {
    StageResponse {
        output: Some(array2_to_proto(&matrix(rows))),
        is_logits,
        commitment: String::new(),
        nonce: String::new(),
        flops: 0,
    }
}

#[test]
fn a_coordinator_goes_through_the_stages() {
    let mut c = Coordinator::new("sess-x".to_string(), vec![vec![1, 2], vec![2]], "hi", 2);
    let hop = c.next_hop().unwrap();
    assert_eq!((hop.stage, hop.peer), (0, 1));
    assert_eq!(hop.request.session, "sess-x");
    assert_eq!((hop.request.stage_id, hop.request.seq_pos), (0, 0));
    match hop.request.input {
        Some(Input::Ids(t)) => assert_eq!(t.ids, vec![104, 105]),
        other => panic!("{other:?}"),
    }
    // the first peer is gone: the second is asked, for this stage and from now on
    c.on_failure(1);
    assert_eq!(c.next_hop().unwrap().peer, 2);
    c.on_response(&answer(&[&[0.5], &[0.25]], false)).unwrap();
    let hop = c.next_hop().unwrap();
    assert_eq!((hop.stage, hop.peer), (1, 2));
    assert!(matches!(hop.request.input, Some(Input::Activation(_))));
    c.on_response(&answer(&[&[9.0, 0.0, 0.0], &[0.0, 1.0, 3.0]], true))
        .unwrap();
    assert!(c.is_pass_over());
    assert_eq!(c.end_pass(), Ok(Some(0)));
    assert_eq!(c.out_ids(), &vec![2]);
    for number in 1..3 {
        let hop = c.next_hop().unwrap();
        assert_eq!(hop.peer, 2);
        assert_eq!(hop.request.seq_pos, number + 1);
        c.on_response(&answer(&[&[0.5]], false)).unwrap();
        c.on_response(&answer(&[&[7.0, 0.0]], true)).unwrap();
        let last = number == 2;
        assert_eq!(c.end_pass(), Ok(if last { None } else { Some(1) }));
    }
    assert_eq!(c.out_ids(), &vec![2, 0]);
    assert_eq!(c.text(), "\u{2}\u{0}");
    assert_eq!(c.reroutes(), 1);
}

#[test]
fn a_coordinator_fails_without_peers_outputs_or_logits() {
    let mut c = Coordinator::new("s".to_string(), vec![vec![1, 2]], "hi", 1);
    let empty = StageResponse {
        output: None,
        is_logits: true,
        commitment: String::new(),
        nonce: String::new(),
        flops: 0,
    };
    assert_eq!(
        c.on_response(&empty),
        Err(CoordinatorError::Wire(WireError::EmptyResponse))
    );
    let mut short = answer(&[&[1.0]], true);
    if let Some(output) = &mut short.output {
        output.data.pop();
    }
    assert_eq!(
        c.on_response(&short),
        Err(CoordinatorError::Wire(WireError::Length {
            bytes: 1,
            rows: 1,
            cols: 1
        }))
    );
    c.on_failure(1);
    c.on_failure(2);
    assert!(matches!(
        c.next_hop(),
        Err(CoordinatorError::NoLiveProvider(0))
    ));
    assert_eq!(c.reroutes(), 2);

    let mut c = Coordinator::new("s".to_string(), vec![vec![1]], "hi", 1);
    c.on_response(&answer(&[&[1.0]], false)).unwrap();
    assert_eq!(c.end_pass(), Err(CoordinatorError::NoLogits));
}

#[test]
fn the_last_row_of_logits_counts() {
    assert_eq!(argmax_last(&matrix(&[&[5.0, 0.0], &[0.0, 1.0]])), 1);
}
