use ambientwalrus::binary64::Binary64;
use ambientwalrus::ipc_server::{quit_notice, Effect, Remote};

fn b(x: f64) -> Binary64 {
    Binary64::from_bits(x.to_bits())
}

#[test]
fn adjustments_add_up_and_are_broadcast() {
    let mut r = Remote::new();
    assert_eq!(r.adjust, b(0.0));
    assert_eq!(r.adjust_by(b(0.1)), Effect::Broadcast(b(0.1)));
    assert_eq!(r.adjust_by(b(0.2)), Effect::Broadcast(b(0.1 + 0.2)));
    assert_eq!(r.adjust, b(0.1 + 0.2));
}

#[test]
fn setting_forgets_what_was() {
    let mut r = Remote::new();
    r.adjust_by(b(0.7));
    assert_eq!(r.set_adjustment(b(-0.25)), Effect::Broadcast(b(-0.25)));
    assert_eq!(r.adjust_by(b(0.5)), Effect::Broadcast(b(0.25)));
}

#[test]
fn quitting_cancels_and_changes_nothing() {
    let mut r = Remote::new();
    r.set_adjustment(b(0.5));
    assert_eq!(r.quit(), Effect::Cancel);
    assert_eq!(r.adjust, b(0.5));
    assert_eq!(quit_notice(), "shutting down due to IPC quit signal");
}
