use shamir::field::Value;
use shamir::shamir::{secret_sharing, extract_secret, parse_points, JsonPoint, Point};
use shamir::Error;

fn eq(a: &Value, b: &Value) -> bool {
    a.sub(b).is_zero()
}

#[test]
fn small_threshold_round_trip() {
    let secret = Value::from_u64(1234567);
    let shares = secret_sharing(&secret, 3, 5).unwrap();
    assert_eq!(shares.len(), 5);
    for window in [&shares[0..3], &shares[1..4], &shares[2..5], &shares[0..5]] {
        let recovered = extract_secret(window).unwrap();
        assert!(eq(&recovered, &secret));
    }
}

#[test]
fn scenario_one_hundred_of_one_hundred_fifty() {
    let secret = Value::parse_hex("abcdefdeadbeef").unwrap();
    let shares = secret_sharing(&secret, 100, 150).unwrap();
    assert_eq!(shares.len(), 150);

    let first = extract_secret(&shares[0..100]).unwrap();
    assert_eq!(first.to_hex_string(), "abcdefdeadbeef");

    let second = extract_secret(&shares[50..150]).unwrap();
    assert_eq!(second.to_hex_string(), "abcdefdeadbeef");
}

#[test]
fn too_few_shares_miss_the_secret() {
    let secret = Value::from_u64(424242);
    let shares = secret_sharing(&secret, 3, 5).unwrap();
    // Interpolating two of three needed shares yields a well-defined value,
    // but nothing ties it to the secret.
    let wrong = extract_secret(&shares[0..2]).unwrap();
    assert!(!eq(&wrong, &secret));
}

#[test]
fn duplicate_x_coordinate_fails() {
    let secret = Value::from_u64(99991);
    let shares = secret_sharing(&secret, 2, 3).unwrap();
    let twice = vec![shares[0].dup(), shares[0].dup()];
    assert!(matches!(extract_secret(&twice), Err(Error::DivisionByZero)));
}

#[test]
fn invalid_arguments_are_rejected() {
    let secret = Value::from_u64(5);
    assert!(matches!(secret_sharing(&secret, 1, 5), Err(Error::InvalidArgument)));
    assert!(matches!(secret_sharing(&secret, 0, 5), Err(Error::InvalidArgument)));
    assert!(matches!(secret_sharing(&secret, 6, 5), Err(Error::InvalidArgument)));
}

#[test]
fn record_round_trip() {
    let p = Point { x: Value::from_u64(3), y: Value::from_u64(0xbeef) };
    let record = JsonPoint::from(&p);
    assert_eq!(record.x, "3");
    assert_eq!(record.y, "beef");
    let back = record.to_point().unwrap();
    assert!(eq(&back.x, &p.x));
    assert!(eq(&back.y, &p.y));
}

#[test]
fn malformed_record_aborts_the_batch() {
    let good = JsonPoint { x: "12ab".to_string(), y: "34cd".to_string() };
    let bad = JsonPoint { x: "56ef".to_string(), y: "not hex".to_string() };
    let records = vec![good, bad];
    assert!(matches!(parse_points(&records), Err(Error::MalformedInput)));

    let fine = vec![
        JsonPoint { x: "1".to_string(), y: "2".to_string() },
        JsonPoint { x: "3".to_string(), y: "4".to_string() },
    ];
    let points = parse_points(&fine).unwrap();
    assert_eq!(points.len(), 2);
    assert!(eq(&points[1].y, &Value::from_u64(4)));
}

#[test]
fn full_share_and_restore_through_records() {
    let secret = Value::parse_hex("c0ffee").unwrap();
    let shares = secret_sharing(&secret, 2, 4).unwrap();
    let records: Vec<JsonPoint> = shares.iter().map(JsonPoint::from).collect();
    let parsed = parse_points(&records).unwrap();
    let recovered = extract_secret(&parsed[0..2]).unwrap();
    assert_eq!(recovered.to_hex_string(), "c0ffee");
}

#[test]
fn nonzero_batches_have_no_zero() {
    let batch = shamir::shamir::make_nonzero_inputs(8).unwrap();
    assert_eq!(batch.len(), 8);
    for v in &batch {
        assert!(!v.is_zero());
    }
}
