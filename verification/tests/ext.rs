use harrow::ResultExt;

#[test]
fn cleanup_runs_on_error_only() {
    let mut ran = false;
    let r: Result<u8, &str> = Err("step failed").cleanup(|| {
        ran = true;
    });
    assert!(r.is_err());
    assert!(ran);

    let mut ran = false;
    let r: Result<u8, &str> = Ok(1).cleanup(|| {
        ran = true;
    });
    assert_eq!(r, Ok(1));
    assert!(!ran);
}
