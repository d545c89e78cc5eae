//! A login from its beginning to its end, over a game that is a few bytes of
//! memory.

use std::collections::BTreeMap;
use std::sync::Mutex;

use deimos_agent::backend::{
    ClientWindowCandidate, MemoryBackend, MutationBackend, OpenedProcess, ProcessBackend,
    ProcessBackendError, ProcessBackendErrorKind, ProcessThreadResume, RemoteThreadPoll,
    StartedRemoteThread, SuspendedProcess,
};
use deimos_agent::game_login::{
    cleanup_all, finish_login, hook_pattern, login, login_pattern, watch_login, CredentialSecret,
    LoginState,
};
use deimos_agent::process::ClientRegistry;
use deimos_agent::protocol::{
    AgentIdentity, ClientId, GameLoginRequest, MemoryProtection, MemoryRegionDescriptor, ModuleDescriptor,
    ProcessAccessMode, ProcessDescriptor, ProcessIdentity, ProcessKind, WIZARD101_EXECUTABLE,
};
use deimos_agent::rpc::RpcErrorCode;

const MODULE: usize = 0x1000_0000;
const MODULE_SIZE: usize = 0x1000;
const LOGIN_AT: usize = 0x100;
const HOOK_AT: usize = 0x200;

struct Memory {
    segments: BTreeMap<usize, Vec<u8>>,
    next: usize,
    fail_write_at: Option<usize>,
}

struct Game {
    memory: Mutex<Memory>,
    log: Mutex<Vec<String>>,
}

struct Resumed;

impl ProcessThreadResume for Resumed {
    fn resume(&mut self) -> Result<(), ProcessBackendError> {
        Ok(())
    }
}

fn failure(message: &str) -> ProcessBackendError {
    ProcessBackendError::new(ProcessBackendErrorKind::Native, message)
}

fn identity() -> ProcessIdentity {
    ProcessIdentity {
        pid: 9,
        creation_time_100ns: "1".to_string(),
        executable_path: format!(r"C:\{WIZARD101_EXECUTABLE}"),
    }
}

impl Game {
    fn new() -> Self {
        let mut module = vec![0xccu8; MODULE_SIZE];
        for (i, byte) in login_pattern().iter().enumerate() {
            module[LOGIN_AT + i] = byte.unwrap_or(0);
        }
        for (i, byte) in hook_pattern().iter().enumerate() {
            module[HOOK_AT + i] = byte.unwrap_or(0x90);
        }
        Game {
            memory: Mutex::new(Memory {
                segments: BTreeMap::from([(MODULE, module)]),
                next: 0x2000_0000,
                fail_write_at: None,
            }),
            log: Mutex::new(Vec::new()),
        }
    }

    fn module(&self) -> Vec<u8> {
        self.memory.lock().expect("memory").segments[&MODULE].clone()
    }

    fn poke(&self, address: usize, bytes: &[u8]) {
        let mut memory = self.memory.lock().expect("memory");
        for (base, segment) in &mut memory.segments {
            if *base <= address && address + bytes.len() <= *base + segment.len() {
                segment[address - *base..address - *base + bytes.len()].copy_from_slice(bytes);
                return;
            }
        }
        panic!("nothing to write at {address:#x}");
    }

    fn allocations(&self) -> usize {
        self.memory.lock().expect("memory").segments.len() - 1
    }
}

impl ProcessBackend for Game {
    type Handle = ();

    fn list_processes(&self) -> Result<Vec<ProcessDescriptor>, ProcessBackendError> {
        Ok(vec![ProcessDescriptor {
            pid: 9,
            name: WIZARD101_EXECUTABLE.to_string(),
            kind: ProcessKind::Wizard101,
            executable_path: None,
            identity: Some(identity()),
        }])
    }

    fn list_client_windows(&self) -> Result<Vec<ClientWindowCandidate>, ProcessBackendError> {
        Ok(vec![ClientWindowCandidate {
            native_window_id: 1,
            pid: 9,
            process_identity: identity(),
            is_foreground: true,
            left: 0,
            top: 0,
        }])
    }

    fn open_process(&self, _pid: u32) -> Result<OpenedProcess<()>, ProcessBackendError> {
        Ok(OpenedProcess {
            handle: (),
            process: self.list_processes()?.remove(0),
        })
    }

    fn open_process_for_access(
        &self,
        pid: u32,
        _access_mode: ProcessAccessMode,
    ) -> Result<OpenedProcess<()>, ProcessBackendError> {
        self.open_process(pid)
    }

    fn validate_process(
        &self,
        _handle: &(),
        _expected: &ProcessIdentity,
    ) -> Result<(), ProcessBackendError> {
        Ok(())
    }

    fn enumerate_modules(
        &self,
        _handle: &(),
        _expected: &ProcessIdentity,
    ) -> Result<Vec<ModuleDescriptor>, ProcessBackendError> {
        Ok(vec![ModuleDescriptor {
            name: WIZARD101_EXECUTABLE.to_string(),
            executable_path: format!(r"C:\{WIZARD101_EXECUTABLE}"),
            base_address: format!("{MODULE:#x}"),
            size: MODULE_SIZE as u32,
        }])
    }
}

impl MemoryBackend for Game {
    fn enumerate_memory_regions(
        &self,
        _handle: &(),
        _expected: &ProcessIdentity,
    ) -> Result<Vec<MemoryRegionDescriptor>, ProcessBackendError> {
        Ok(Vec::new())
    }

    fn read_memory(
        &self,
        _handle: &(),
        address: usize,
        size: usize,
    ) -> Result<Vec<u8>, ProcessBackendError> {
        let memory = self.memory.lock().expect("memory");
        for (base, segment) in &memory.segments {
            if *base <= address && address + size <= *base + segment.len() {
                return Ok(segment[address - *base..address - *base + size].to_vec());
            }
        }
        Err(failure("unreadable"))
    }
}

impl MutationBackend for Game {
    type ThreadHandle = ();

    fn write_memory(
        &self,
        _handle: &(),
        address: usize,
        bytes: &[u8],
    ) -> Result<(), ProcessBackendError> {
        let mut memory = self.memory.lock().expect("memory");
        if memory.fail_write_at == Some(address) {
            memory.fail_write_at = None;
            return Err(failure("forced write failure"));
        }
        for (base, segment) in &mut memory.segments {
            if *base <= address && address + bytes.len() <= *base + segment.len() {
                segment[address - *base..address - *base + bytes.len()].copy_from_slice(bytes);
                return Ok(());
            }
        }
        Err(failure("unwritable"))
    }

    fn allocate_memory(
        &self,
        _handle: &(),
        size: usize,
        _protection: MemoryProtection,
    ) -> Result<usize, ProcessBackendError> {
        let mut memory = self.memory.lock().expect("memory");
        let address = memory.next;
        memory.next += 0x1_0000;
        memory.segments.insert(address, vec![0; size]);
        Ok(address)
    }

    fn free_memory(&self, _handle: &(), address: usize) -> Result<(), ProcessBackendError> {
        let mut memory = self.memory.lock().expect("memory");
        let freed = memory.segments.remove(&address);
        self.log
            .lock()
            .expect("log")
            .push(format!("freed {:?}", freed.map(|bytes| bytes.iter().all(|b| *b == 0))));
        Ok(())
    }

    fn suspend_process_threads(&self, _handle: &()) -> Result<SuspendedProcess, ProcessBackendError> {
        Ok(SuspendedProcess::new(Vec::new(), Resumed))
    }

    fn protect_memory(
        &self,
        _handle: &(),
        _address: usize,
        _size: usize,
        protection: MemoryProtection,
    ) -> Result<MemoryProtection, ProcessBackendError> {
        self.log.lock().expect("log").push(format!("protect {protection:?}"));
        Ok(MemoryProtection::ExecuteRead)
    }

    fn start_remote_thread(
        &self,
        _handle: &(),
        _start_address: usize,
        _parameter: Option<usize>,
    ) -> Result<StartedRemoteThread<()>, ProcessBackendError> {
        Err(failure("no threads"))
    }

    fn poll_remote_thread(
        &self,
        _thread: &(),
        _wait_timeout_ms: u32,
    ) -> Result<RemoteThreadPoll, ProcessBackendError> {
        Err(failure("no threads"))
    }

    fn flush_instruction_cache(
        &self,
        _handle: &(),
        _address: usize,
        _size: usize,
    ) -> Result<(), ProcessBackendError> {
        Ok(())
    }
}

fn request(client_id: ClientId) -> GameLoginRequest {
    GameLoginRequest {
        client_id,
        agent_instance_id: "agent".to_string(),
        transfer_id: "03".repeat(32),
        timeout_ms: 1_000,
    }
}

fn agent() -> AgentIdentity {
    AgentIdentity {
        instance_id: "agent".to_string(),
        version: "1".to_string(),
        build_id: "test".to_string(),
        process_id: 1,
    }
}

fn account() -> CredentialSecret {
    CredentialSecret::new(b"user".to_vec(), b"secret-value".to_vec())
}

#[test]
fn a_login_diverts_the_game_and_leaves_nothing_behind() {
    let game = Game::new();
    let before = game.module();
    let mut clients = ClientRegistry::new(1);
    let client_id = clients.list(&game).expect("clients").clients[0].client_id.clone();
    let request = request(client_id.clone());
    let mut state: LoginState<()> = LoginState::default();
    let record = login(
        &mut state,
        &mut clients,
        &game,
        &agent(),
        &request,
        Some(account()),
    )
    .expect("begun");
    assert_eq!(record.hook_address, MODULE + HOOK_AT);
    assert_eq!(record.allocations.len(), 4);
    assert!(record.patch_may_be_active);
    assert_ne!(game.module(), before);
    assert_eq!(game.module()[HOOK_AT], 0xe9);
    let flag = record.execution_flag.expect("flag");
    assert_eq!(game.read_memory(&(), flag, 1).expect("flag"), vec![1]);
    let command = game
        .read_memory(&(), record.allocations[0].address, 24)
        .expect("command");
    assert_eq!(command, b"login user secret-value\0");
    assert!(!watch_login(&game, &record, 1_000, false, false).expect("still running"));
    game.poke(flag, &[0]);
    assert!(watch_login(&game, &record, 1_000, false, false).expect("done"));
    let response =
        finish_login(&mut state, &game, &client_id, record, Ok(())).expect("finished");
    assert!(response.authenticated && response.cleanup_complete);
    assert_eq!(response.client_id, client_id);
    assert_eq!(game.module(), before);
    assert_eq!(game.allocations(), 0);
    assert!(game.log.lock().expect("log").contains(&"freed Some(true)".to_string()));
    assert!(cleanup_all(&mut state, &game).is_ok());
}

#[test]
fn a_login_that_takes_too_long_times_out_and_is_kept_while_it_runs() {
    let game = Game::new();
    let before = game.module();
    let mut clients = ClientRegistry::new(1);
    let client_id = clients.list(&game).expect("clients").clients[0].client_id.clone();
    let request = request(client_id.clone());
    let mut state: LoginState<()> = LoginState::default();
    let record = login(
        &mut state,
        &mut clients,
        &game,
        &agent(),
        &request,
        Some(account()),
    )
    .expect("begun");
    let flag = record.execution_flag.expect("flag");
    game.poke(flag, &[2]);
    let late = watch_login(&game, &record, 1_000, true, false).expect_err("late");
    let error = finish_login(&mut state, &game, &client_id, record, Err(late))
        .expect_err("not cleaned up")
        .into_rpc_error(4, "game.login");
    assert_eq!(error.code, RpcErrorCode::GameLoginFailed);
    assert!(cleanup_all(&mut state, &game).is_err());
    game.poke(flag, &[0]);
    assert!(cleanup_all(&mut state, &game).is_ok());
    assert_eq!(game.module(), before);
    assert_eq!(game.allocations(), 0);
}

#[test]
fn a_login_that_cannot_be_written_changes_nothing() {
    let game = Game::new();
    let before = game.module();
    game.memory.lock().expect("memory").fail_write_at = Some(0x2003_0000);
    let mut clients = ClientRegistry::new(1);
    let client_id = clients.list(&game).expect("clients").clients[0].client_id.clone();
    let mut state: LoginState<()> = LoginState::default();
    let error = login(
        &mut state,
        &mut clients,
        &game,
        &agent(),
        &request(client_id),
        Some(account()),
    )
        .err()
        .expect("not begun")
        .into_rpc_error(5, "game.login");
    assert_eq!(error.code, RpcErrorCode::GameLoginFailed);
    assert_eq!(game.module(), before);
    assert_eq!(game.allocations(), 0);
}

#[test]
fn a_game_without_the_patterns_is_left_alone() {
    let game = Game::new();
    game.poke(MODULE + LOGIN_AT, &[0]);
    let mut clients = ClientRegistry::new(1);
    let client_id = clients.list(&game).expect("clients").clients[0].client_id.clone();
    let mut state: LoginState<()> = LoginState::default();
    let error = login(
        &mut state,
        &mut clients,
        &game,
        &agent(),
        &request(client_id),
        Some(account()),
    )
        .err()
        .expect("not begun")
        .into_rpc_error(6, "game.login");
    assert_eq!(error.code, RpcErrorCode::GameLoginFailed);
    assert_eq!(game.allocations(), 0);
    assert!(game.log.lock().expect("log").is_empty());
}

#[test]
fn a_login_is_refused_unless_its_transfer_is_authentic_and_new() {
    let game = Game::new();
    let mut clients = ClientRegistry::new(1);
    let client_id = clients.list(&game).expect("clients").clients[0].client_id.clone();
    let mut state: LoginState<()> = LoginState::default();
    let mut refused = |change: fn(&mut GameLoginRequest), opened: Option<CredentialSecret>| {
        let mut wanted = request(client_id.clone());
        change(&mut wanted);
        let error = login(&mut state, &mut clients, &game, &agent(), &wanted, opened)
            .err()
            .expect("refused")
            .into_rpc_error(7, "game.login");
        (error, state.used_count())
    };
    let (error, used) = refused(|wanted| wanted.timeout_ms = 0, Some(account()));
    assert_eq!(error.code, RpcErrorCode::InvalidRequest);
    assert_eq!(used, 0);
    let (error, used) = refused(
        |wanted| wanted.agent_instance_id = "stranger".to_string(),
        Some(account()),
    );
    assert!(error.message.contains("different agent instance"));
    assert_eq!(used, 0);
    let (error, used) = refused(
        |wanted| wanted.transfer_id = "short".to_string(),
        Some(account()),
    );
    assert!(error.message.contains("64-character hexadecimal"));
    assert_eq!(used, 0);
    let (error, used) = refused(|_| (), None);
    assert!(error.message.contains("could not be authenticated"));
    assert_eq!(used, 0);
    assert_eq!(game.allocations(), 0);

    let wanted = request(client_id.clone());
    let begun = login(
        &mut state,
        &mut clients,
        &game,
        &agent(),
        &wanted,
        Some(account()),
    )
    .expect("begun");
    assert_eq!(state.used_count(), 1);
    game.poke(begun.execution_flag.expect("flag"), &[0]);
    finish_login(&mut state, &game, &client_id, begun, Ok(())).expect("finished");
    let error = login(
        &mut state,
        &mut clients,
        &game,
        &agent(),
        &wanted,
        Some(account()),
    )
    .err()
    .expect("used up")
    .into_rpc_error(8, "game.login");
    assert!(error.message.contains("already been consumed"));
    assert_eq!(state.used_count(), 1);
}
