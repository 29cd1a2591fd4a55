use mmr_forest::security::get_conjectured_security;

#[test]
fn conjectured_security_with_grinding_contribution() {
    // 64-bit base field, quadratic extension, blowup 8, 27 queries, 16 bits
    // of grinding, a trace domain of 2^20 steps, hash resistance 128:
    // field security 128 - 20 = 108; query security 3 * 27 = 81 >= 80, so
    // plus grinding: 97; min(108, 97) - 1 = 96, below the cap.
    let security = get_conjectured_security(64, 2, 8, 27, 16, 1 << 20, 128);
    assert_eq!(security, 96);
}

#[test]
fn conjectured_security_without_grinding_contribution() {
    // 3 bits per query over 26 queries stays under the grinding floor:
    // query security 78; field security 128 - 10 = 118; 78 - 1 = 77.
    let security = get_conjectured_security(64, 2, 8, 26, 16, 1 << 10, 128);
    assert_eq!(security, 77);
}

#[test]
fn conjectured_security_caps_at_collision_resistance() {
    // both components exceed the hash's collision resistance
    let security = get_conjectured_security(64, 3, 16, 40, 20, 1 << 4, 128);
    assert_eq!(security, 128);
}
