use aaf::write::Sidecar;
use aaf::Auid;

const SIDECAR: &str = "# a comment\nsector_size\t512\noption\tcreate_edgecode\ttrue\n\
                       user\teditor\nnow\t2024-05-06T07:08:09\n\
                       uuid4\t5eed0001-0000-4000-8000-000000000001\n";

#[test]
fn a_sidecar_is_replayed_in_order() {
    let sidecar = Sidecar::parse("x", SIDECAR).unwrap();
    assert_eq!(sidecar.sector_size, 512);
    assert!(sidecar.option("create_edgecode"));
    assert!(!sidecar.option("use_empty_mob_ids"));
    assert_eq!(sidecar.user.as_deref(), Some("editor"));
    let mut replay = sidecar.replay.clone();
    assert!(sidecar.replay.finish().is_err(), "nothing asked for yet");
    assert_eq!(replay.now().to_string(), "2024-05-06T07:08:09");
    assert_eq!(
        replay.uuid4().to_string(),
        "5eed0001-0000-4000-8000-000000000001"
    );
    sidecar.replay.finish().unwrap();
}

#[test]
fn asking_out_of_turn_is_reported_by_finish() {
    let sidecar = Sidecar::parse("x", SIDECAR).unwrap();
    let mut replay = sidecar.replay.clone();
    assert_eq!(replay.uuid4(), Auid::nil());
    let error = sidecar.replay.finish().unwrap_err();
    assert!(
        error.contains("asked for uuid4 where pyaaf2 asked for now"),
        "{error}"
    );
}

#[test]
fn a_line_that_is_not_a_sidecar_line_is_refused() {
    assert!(Sidecar::parse("x", "later\t1\n").is_err());
    assert!(Sidecar::parse("x", "no tab\n").is_err());
}

#[test]
fn a_refused_line_is_named_by_its_number() {
    match Sidecar::parse("x", "# c\nno tab\n") {
        Ok(_) => panic!("a line with no tab was taken"),
        Err(e) => assert_eq!(e, "line 2 is not a sidecar line: \"no tab\""),
    }
}

#[test]
fn values_left_over_are_counted_by_finish() {
    let sidecar = Sidecar::parse("x", SIDECAR).unwrap();
    assert_eq!(
        sidecar.replay.finish().unwrap_err(),
        "x: pyaaf2 asked for 2 more value(s) than the writer did, starting with (\"now\", \"2024-05-06T07:08:09\")"
    );
}
