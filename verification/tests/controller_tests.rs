use cilium_ipip_router::controller::handle::ControllerCommand;

#[test]
fn handle_test_controller_command_stop_enum() {
    let stop_graceful = ControllerCommand::Stop { graceful: true };
    let stop_non_graceful = ControllerCommand::Stop { graceful: false };

    assert!(matches!(stop_graceful, ControllerCommand::Stop { graceful: true }));
    assert!(matches!(
        stop_non_graceful,
        ControllerCommand::Stop { graceful: false }
    ));
}

#[test]
fn root_tests_test_controller_command_stop_enum() {
    let stop_graceful = ControllerCommand::Stop { graceful: true };
    let stop_non_graceful = ControllerCommand::Stop { graceful: false };

    assert!(matches!(stop_graceful, ControllerCommand::Stop { graceful: true }));
    assert!(matches!(
        stop_non_graceful,
        ControllerCommand::Stop { graceful: false }
    ));
}
