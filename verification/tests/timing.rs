use debug_blargg::timing::FramePosition;
use debug_blargg::tracer::tick_cycles;

#[test]
fn frames() {
    let at = |t| {
        let p = FramePosition::new(t);
        (p.frame, p.pos, p.in_vblank)
    };
    assert_eq!(at(0), (0, 0, false));
    assert_eq!(at(16415), (0, 16415, false));
    assert_eq!(at(16416), (0, 16416, true));
    assert_eq!(at(17555), (0, 17555, true));
    assert_eq!(at(17556), (1, 0, false));
    assert_eq!(at(u64::MAX), (u64::MAX / 17556, u64::MAX % 17556, false));
    for t in [1u64, 17556, 123456789, u64::MAX] {
        let p = FramePosition::new(t);
        assert_eq!(p.frame * 17556 + p.pos, t);
        assert_eq!(p.in_vblank, p.pos / 114 >= 144);
    }
}

#[test]
fn cycles_of_a_tick() {
    assert_eq!(tick_cycles(7, 7), 0);
    assert_eq!(tick_cycles(7, 13), 6);
}
