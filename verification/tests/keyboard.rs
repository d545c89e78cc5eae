//! Input over a backend that writes down what it is told to send.

use std::sync::Mutex;

use deimos_agent::backend::{
    ClientWindowCandidate, ClientWindowSnapshot, ClientWindowTarget, OpenedProcess,
    ProcessBackend, ProcessBackendError, ProcessBackendErrorKind,
};
use deimos_agent::process::ClientRegistry;
use deimos_agent::protocol::{
    ClientId, ClientKeyCombinationRequest, ClientKeyEventRequest, ClientMouseClickRequest,
    ClientMouseMoveRequest, ClientTimedKeyRequest, ClientToScreenRequest, ClientWindowRequest,
    ClientWindowSetTitleRequest, CoordinateSpace, KeyAction, MessageDelivery, ModuleDescriptor,
    MouseButton, ProcessDescriptor, ProcessIdentity, ProcessKind, WindowPoint, WindowRectangle,
    WindowSize,
};
use deimos_agent::rpc::RpcErrorCode;
use deimos_agent::window_input::{
    client_to_screen, focus, key_combination, key_event, mouse_click, mouse_move,
    release_mouse_button, release_timed_key, repeat_key_down, resolve, set_title, state, timed_key,
    WindowInputError,
};

#[derive(Default)]
struct Keyboard {
    sent: Mutex<Vec<String>>,
    stuck_key: Option<u16>,
}

impl Keyboard {
    fn note(&self, event: String) {
        self.sent.lock().expect("events").push(event);
    }

    fn events(&self) -> Vec<String> {
        self.sent.lock().expect("events").clone()
    }
}

fn identity() -> ProcessIdentity {
    ProcessIdentity {
        pid: 5,
        creation_time_100ns: "1".to_string(),
        executable_path: r"C:\game.exe".to_string(),
    }
}

impl ProcessBackend for Keyboard {
    type Handle = ();

    fn list_processes(&self) -> Result<Vec<ProcessDescriptor>, ProcessBackendError> {
        Ok(vec![ProcessDescriptor {
            pid: 5,
            name: "WizardGraphicalClient.exe".to_string(),
            kind: ProcessKind::Wizard101,
            executable_path: None,
            identity: Some(identity()),
        }])
    }

    fn list_client_windows(&self) -> Result<Vec<ClientWindowCandidate>, ProcessBackendError> {
        Ok(vec![ClientWindowCandidate {
            native_window_id: 77,
            pid: 5,
            process_identity: identity(),
            is_foreground: true,
            left: 0,
            top: 0,
        }])
    }

    fn open_process(&self, _pid: u32) -> Result<OpenedProcess<()>, ProcessBackendError> {
        unreachable!("input opens no process")
    }

    fn validate_process(
        &self,
        _handle: &(),
        _expected: &ProcessIdentity,
    ) -> Result<(), ProcessBackendError> {
        Ok(())
    }

    fn enumerate_modules(
        &self,
        _handle: &(),
        _expected: &ProcessIdentity,
    ) -> Result<Vec<ModuleDescriptor>, ProcessBackendError> {
        Ok(Vec::new())
    }

    fn inspect_client_window(
        &self,
        target: &ClientWindowTarget,
    ) -> Result<ClientWindowSnapshot, ProcessBackendError> {
        Ok(ClientWindowSnapshot {
            title: format!("window {}", target.native_window_id),
            is_foreground: true,
            rectangle: WindowRectangle { left: 1, top: 2, right: 3, bottom: 4 },
            client_origin: WindowPoint { x: 5, y: 6 },
            client_size: WindowSize { width: 7, height: 8 },
        })
    }

    fn focus_client_window(&self, _target: &ClientWindowTarget) -> Result<bool, ProcessBackendError> {
        Ok(true)
    }

    fn set_client_window_title(
        &self,
        _target: &ClientWindowTarget,
        title: &str,
    ) -> Result<(), ProcessBackendError> {
        self.note(format!("title {title}"));
        Ok(())
    }

    fn client_to_screen(
        &self,
        _target: &ClientWindowTarget,
        point: WindowPoint,
    ) -> Result<WindowPoint, ProcessBackendError> {
        Ok(WindowPoint { x: point.x + 100, y: point.y + 200 })
    }

    fn screen_to_client(
        &self,
        _target: &ClientWindowTarget,
        point: WindowPoint,
    ) -> Result<WindowPoint, ProcessBackendError> {
        Ok(WindowPoint { x: point.x - 100, y: point.y - 200 })
    }

    fn send_client_key_event(
        &self,
        _target: &ClientWindowTarget,
        virtual_key: u16,
        action: KeyAction,
        _delivery: MessageDelivery,
    ) -> Result<(), ProcessBackendError> {
        if action == KeyAction::Down && self.stuck_key == Some(virtual_key) {
            return Err(ProcessBackendError::new(ProcessBackendErrorKind::Native, "stuck"));
        }
        self.note(format!("{action:?} {virtual_key:#x}"));
        Ok(())
    }

    fn send_client_mouse_move(
        &self,
        _target: &ClientWindowTarget,
        point: WindowPoint,
        _delivery: MessageDelivery,
    ) -> Result<(), ProcessBackendError> {
        self.note(format!("move {} {}", point.x, point.y));
        Ok(())
    }

    fn send_client_mouse_button(
        &self,
        _target: &ClientWindowTarget,
        point: WindowPoint,
        button: MouseButton,
        pressed: bool,
        _delivery: MessageDelivery,
    ) -> Result<(), ProcessBackendError> {
        self.note(format!("{button:?} {pressed} {} {}", point.x, point.y));
        Ok(())
    }
}

fn target() -> ClientWindowTarget {
    ClientWindowTarget {
        native_window_id: 77,
        process_identity: identity(),
    }
}

fn client() -> ClientId {
    ClientId("client".to_string())
}

fn code_of(error: WindowInputError) -> RpcErrorCode {
    error.into_rpc_error(1, "client").code
}

fn combination(modifiers: Vec<u16>, virtual_key: u16) -> ClientKeyCombinationRequest {
    ClientKeyCombinationRequest {
        client_id: client(),
        modifiers,
        virtual_key,
        delivery: MessageDelivery::Post,
    }
}

#[test]
fn a_combination_presses_in_order_and_lets_every_key_go() {
    let backend = Keyboard::default();
    let answer = key_combination(&backend, &target(), &combination(vec![0x10, 0x11], 0x41))
        .expect("combination");
    assert!(answer.delivered);
    assert_eq!(
        backend.events(),
        vec!["Down 0x10", "Down 0x11", "Down 0x41", "Up 0x41", "Up 0x10", "Up 0x11"]
    );
}

#[test]
fn a_combination_that_fails_lets_the_pressed_keys_go() {
    let backend = Keyboard {
        stuck_key: Some(0x41),
        ..Keyboard::default()
    };
    let error = key_combination(&backend, &target(), &combination(vec![0x10, 0x11], 0x41))
        .expect_err("stuck key");
    assert_eq!(code_of(error), RpcErrorCode::InputFailed);
    let events = backend.events();
    assert!(events.contains(&"Up 0x10".to_string()));
    assert!(events.contains(&"Up 0x11".to_string()));
}

#[test]
fn a_combination_names_each_key_once_and_not_too_many() {
    let backend = Keyboard::default();
    for (modifiers, key) in [
        (vec![0x10, 0x10], 0x41),
        (vec![0x41], 0x41),
        (vec![0], 0x41),
        (vec![], 0),
        ((1..=9).collect(), 0x41),
    ] {
        let error = key_combination(&backend, &target(), &combination(modifiers, key))
            .expect_err("refused");
        assert_eq!(code_of(error), RpcErrorCode::InvalidRequest);
    }
    assert!(backend.events().is_empty());
}

#[test]
fn a_held_key_goes_down_again_and_up_in_the_end() {
    let backend = Keyboard::default();
    let request = ClientTimedKeyRequest {
        client_id: client(),
        virtual_key: 0x20,
        duration_ms: 120,
        delivery: MessageDelivery::Send,
    };
    timed_key(&backend, &target(), &request).expect("pressed");
    repeat_key_down(&backend, &target(), &request).expect("repeated");
    let answer =
        release_timed_key(&backend, &target(), &request, Ok(false)).expect("released");
    assert_eq!(answer.client_id, client());
    assert_eq!(backend.events(), vec!["Down 0x20", "Down 0x20", "Up 0x20"]);
    assert_eq!(
        code_of(release_timed_key(&backend, &target(), &request, Ok(true)).expect_err("cancelled")),
        RpcErrorCode::InputFailed
    );
    let failed = Err(ProcessBackendError::new(ProcessBackendErrorKind::Native, "lost"));
    assert_eq!(
        code_of(release_timed_key(&backend, &target(), &request, failed).expect_err("failed")),
        RpcErrorCode::InputFailed
    );
    let event = ClientKeyEventRequest {
        client_id: client(),
        virtual_key: 0x30,
        action: KeyAction::Up,
        delivery: MessageDelivery::Post,
    };
    assert!(key_event(&backend, &target(), &event).expect("sent").delivered);
    assert_eq!(backend.events().last().map(String::as_str), Some("Up 0x30"));
}

#[test]
fn a_click_moves_presses_and_lets_go_at_one_point() {
    let backend = Keyboard::default();
    let request = ClientMouseClickRequest {
        client_id: client(),
        point: WindowPoint { x: 150, y: 260 },
        coordinate_space: CoordinateSpace::Screen,
        button: MouseButton::Right,
        hold_ms: 10,
        delivery: MessageDelivery::Post,
    };
    let point = mouse_click(&backend, &target(), &request).expect("pressed");
    assert_eq!((point.x, point.y), (50, 60));
    assert!(release_mouse_button(&backend, &target(), &request, point, false).is_ok());
    assert_eq!(
        backend.events(),
        vec!["move 50 60", "Right true 50 60", "Right false 50 60"]
    );
    assert!(release_mouse_button(&backend, &target(), &request, point, true).is_err());
    let moved = ClientMouseMoveRequest {
        client_id: client(),
        point: WindowPoint { x: 9, y: 8 },
        coordinate_space: CoordinateSpace::Client,
        delivery: MessageDelivery::Post,
    };
    assert!(mouse_move(&backend, &target(), &moved).is_ok());
    assert_eq!(backend.events().last().map(String::as_str), Some("move 9 8"));
}

#[test]
fn a_window_is_found_by_the_name_of_its_client() {
    let backend = Keyboard::default();
    let mut clients = ClientRegistry::new(1);
    let client_id = clients.list(&backend).expect("clients").clients[0].client_id.clone();
    let found = resolve(&mut clients, &backend, &client_id).expect("found");
    assert_eq!(found.native_window_id, 77);
    assert_eq!(
        code_of(resolve(&mut clients, &backend, &ClientId(" ".to_string())).expect_err("blank")),
        RpcErrorCode::InvalidRequest
    );
    assert_eq!(
        code_of(
            resolve(&mut clients, &backend, &ClientId("other".to_string())).expect_err("unknown")
        ),
        RpcErrorCode::ClientNotFound
    );
    let request = ClientWindowRequest {
        client_id: client_id.clone(),
    };
    let seen = state(&mut clients, &backend, &request).expect("state");
    assert_eq!(seen.title, "window 77");
    assert_eq!(seen.client_origin.y, 6);
    assert!(focus(&mut clients, &backend, &request).expect("focus").is_foreground);
    let renamed = set_title(
        &mut clients,
        &backend,
        &ClientWindowSetTitleRequest {
            client_id: client_id.clone(),
            title: "first".to_string(),
        },
    )
    .expect("title");
    assert_eq!(renamed.client_id, client_id);
    assert_eq!(backend.events(), vec!["title first"]);
    assert!(set_title(
        &mut clients,
        &backend,
        &ClientWindowSetTitleRequest {
            client_id: client_id.clone(),
            title: "x".repeat(257),
        },
    )
    .is_err());
    let point = client_to_screen(
        &mut clients,
        &backend,
        &ClientToScreenRequest {
            client_id,
            point: WindowPoint { x: 1, y: 2 },
        },
    )
    .expect("point")
    .point;
    assert_eq!((point.x, point.y), (101, 202));
}
