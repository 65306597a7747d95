use slime_core::boot::BootDirective;
use slime_core::boot::BootSequencer;

#[test]
fn fresh_sequencer_refuses_ingress() {
    let seq = BootSequencer::new();
    assert!(!seq.may_accept_ingress());
}

#[test]
fn failed_establishment_terminates_and_keeps_ingress_closed() {
    let mut seq = BootSequencer::new();
    let directive = seq.on_channel_result(false);
    assert!(matches!(directive, BootDirective::Terminate));
    assert!(!seq.may_accept_ingress());
}

#[test]
fn successful_establishment_opens_ingress() {
    let mut seq = BootSequencer::new();
    let directive = seq.on_channel_result(true);
    assert!(matches!(directive, BootDirective::StartIngress));
    assert!(seq.may_accept_ingress());
}

#[test]
fn ingress_opens_at_most_once() {
    let mut seq = BootSequencer::new();
    assert!(matches!(seq.on_channel_result(true), BootDirective::StartIngress));
    // A second report never starts ingress again.
    assert!(matches!(seq.on_channel_result(true), BootDirective::Terminate));
}
