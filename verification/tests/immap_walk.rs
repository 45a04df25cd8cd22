use lead_build::immap::ImMap;

fn sample() -> ImMap<i64> {
    ImMap::from(vec![("b".to_string(), 2), ("a".to_string(), 1), ("c".to_string(), 3)]).unwrap()
}

#[test]
fn foreach_stops_at_first_failure_in_key_order() {
    let m = sample();
    let r = m.foreach(|k: &str, v: &i64| if *v >= 2 { Err(k.to_string()) } else { Ok(()) });
    assert_eq!(r, Err("b".to_string()));
}

#[test]
fn foreach_succeeds_when_every_call_does() {
    let m = sample();
    let r: Result<(), String> = m.foreach(|_k: &str, v: &i64| if *v > 0 { Ok(()) } else { Err("neg".to_string()) });
    assert_eq!(r, Ok(()));
}

#[test]
fn from_names_first_repeated_key() {
    let r = ImMap::from(vec![
        ("a".to_string(), 1),
        ("b".to_string(), 2),
        ("a".to_string(), 3),
        ("b".to_string(), 4),
    ]);
    match r {
        Err(lead_build::immap::Error::DupKey(k)) => assert_eq!(k, "a"),
        Ok(_) => panic!("duplicate keys accepted"),
    }
}

#[test]
fn set_mut_replaces_value_and_reports_duplicate() {
    let mut m = sample();
    assert!(m.set_mut("a", 10).is_err());
    assert_eq!(m.get("a"), Some(&10));
    assert_eq!(m.get("b"), Some(&2));
}

#[test]
fn try_map_returns_first_failure_in_key_order() {
    let m = sample();
    let r: Result<ImMap<i64>, String> = m.try_map(|v: &i64| if *v >= 2 { Err(format!("fail {}", v)) } else { Ok(*v) });
    assert_eq!(r.err(), Some("fail 2".to_string()));
}
