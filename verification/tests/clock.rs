use unibus::clock::now_millis;

#[test]
fn test_now_millis() {
    let t = now_millis();
    assert!(t > 0);
}
