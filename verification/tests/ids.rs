use aaf::auid::Auid;

#[test]
fn an_auid_reads_back_as_it_was_written() {
    let id: Auid = "0d010101-0101-2f00-060e-2b3402060101".parse().unwrap();
    assert_eq!(id.to_string(), "0d010101-0101-2f00-060e-2b3402060101");
    assert_eq!(id.data1(), 0x0d01_0101);
}

#[test]
fn parses_an_auid_at_compile_time() {
    let id: aaf::Auid = aaf::builtin::auid("0d010101-0101-0100-060e-2b3402060101");
    assert_eq!(id.to_string(), "0d010101-0101-0100-060e-2b3402060101");
}
