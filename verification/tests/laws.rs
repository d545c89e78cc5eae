//! What holds of every value, on a few.

use std::collections::BTreeMap;

use deimos_agent::backend::UnsupportedProcessBackend;
use deimos_agent::codec::{bits_of, from_bits, push_le, read_be, read_le};
use deimos_agent::core_hook;
use deimos_agent::feature_hook;
use deimos_agent::hook::{build_detour, relocatable_prefix_len, validate_relocatable_x64};
use deimos_agent::memory::parse_address;
use deimos_agent::ordered::TextMap;
use deimos_agent::process::ProcessSessionRegistry;
use deimos_agent::protocol::{
    CoreHook, FeatureHook, ListProcessesRequest, OpenProcessRequest, ProcessAccessMode,
    ProcessSessionId,
};
use deimos_agent::rpc::RpcErrorCode;
use deimos_agent::search::parse_signature;
use deimos_agent::signature::{signature_offsets, write_signature};
use deimos_agent::text::{format_address, format_decimal, format_signed, same_ignoring_case};
use deimos_agent::threads::ThreadList;

#[test]
fn written_values_read_back() {
    for value in [0u64, 1, 0xfe, 0x1234_5678, u64::MAX] {
        let mut bytes = Vec::new();
        push_le(&mut bytes, value, 8);
        assert_eq!(bytes, value.to_le_bytes());
        assert_eq!(read_le(&bytes, 0, 8), value);
        bytes.reverse();
        assert_eq!(read_be(&bytes, 0, 8), value);
    }
    for value in [0i32, -1, i32::MIN, i32::MAX, 42] {
        assert_eq!(from_bits(bits_of(value)), value);
        assert_eq!(bits_of(value), value as u32);
    }
}

#[test]
fn written_addresses_read_back() {
    for address in [0usize, 9, 0x10, 0xdead_beef, usize::MAX] {
        let text = format_address(address);
        assert_eq!(text, format!("{address:#x}"));
        assert_eq!(parse_address(&text).expect("address"), address);
    }
    assert_eq!(format_decimal(1_234_567), "1234567");
    assert_eq!(format_signed(-2_147_483_648), "-2147483648");
    assert!(same_ignoring_case("Game.EXE", "gAME.exe"));
    assert!(!same_ignoring_case("game.exe", "game.ex"));
}

#[test]
fn exact_signatures_read_back_and_occur_where_the_bytes_stand() {
    let bytes = vec![0x00u8, 0x0f, 0xa0, 0xff];
    let text = write_signature(&bytes);
    assert_eq!(text, "00 0F A0 FF");
    let signature = parse_signature(&text).expect("signature");
    assert_eq!(signature, vec![Some(0x00), Some(0x0f), Some(0xa0), Some(0xff)]);
    let memory = [1u8, 0x00, 0x0f, 0xa0, 0xff, 0x00, 0x0f, 0xa0, 0xff, 0x00];
    assert_eq!(signature_offsets(&memory, &signature), vec![1, 5]);
    assert_eq!(signature_offsets(&memory, &[None, Some(0x0f)]), vec![1, 5]);
    assert_eq!(signature_offsets(&[7u8, 7, 7], &[Some(7), Some(7)]), vec![0, 1]);
}

#[test]
fn relocatable_spans_join() {
    let first = [0x31u8, 0xc0];
    let second = [0x48u8, 0x89, 0xf8];
    let joined = [first.as_slice(), second.as_slice()].concat();
    assert!(validate_relocatable_x64(&first).is_ok());
    assert!(validate_relocatable_x64(&second).is_ok());
    assert!(validate_relocatable_x64(&joined).is_ok());
    let branching = [first.as_slice(), &[0xebu8, 0xfe]].concat();
    assert!(validate_relocatable_x64(&branching).is_err());
    assert_eq!(relocatable_prefix_len(&joined, 3).expect("prefix"), 5);
    assert_eq!(build_detour(0, 14).len(), 14);
}

#[test]
fn keys_of_hooks_differ() {
    let mut keys = Vec::new();
    for hook in CoreHook::all() {
        keys.push(core_hook::hook_key(hook));
    }
    for hook in FeatureHook::all() {
        keys.push(feature_hook::hook_key(hook));
    }
    let count = keys.len();
    keys.sort();
    keys.dedup();
    assert_eq!(keys.len(), count);
}

#[test]
fn maps_keep_their_keys_in_ascending_order() {
    let mut map: TextMap<u8> = TextMap::new();
    for (key, value) in [("b", 1u8), ("a", 2), ("ab", 3), ("b", 4)] {
        map.put(key.to_string(), value);
    }
    let held: Vec<(String, u8)> = (0..map.len())
        .map(|index| (map.key_at(index).clone(), *map.value_at(index)))
        .collect();
    assert_eq!(
        held,
        vec![("a".to_string(), 2), ("ab".to_string(), 3), ("b".to_string(), 4)]
    );
    assert_eq!(map.remove("ab"), Some(3));
    assert!(!map.contains("ab"));
    assert_eq!(map.get("b"), Some(&4));

    let mut threads: ThreadList<char> = ThreadList::new();
    threads.put(9, 'x');
    threads.put(3, 'y');
    threads.put(9, 'z');
    assert_eq!(threads.all_ids(), vec![3, 9]);
    assert_eq!(threads.get(9), Some(&'z'));
    threads.remove(9);
    assert_eq!(threads.len(), 1);
}

#[test]
fn errors_are_described_with_their_fields_in_quotes() {
    let mut sessions: ProcessSessionRegistry<()> = ProcessSessionRegistry::new(1, 1);
    let name = "no \"such\"\n";
    let error = sessions
        .status(&UnsupportedProcessBackend, &ProcessSessionId(name.to_string()))
        .expect_err("no such session");
    let message = format!("process session {name} does not exist");
    let details = BTreeMap::from([("session_id", name)]);
    assert_eq!(
        error.describe(),
        format!(
            "ProcessApiError {{ code: SessionNotFound, message: {message:?}, details: {details:?} }}"
        )
    );
    assert_eq!(
        error.into_rpc_error(3, "process.status").code,
        RpcErrorCode::SessionNotFound
    );
}

#[test]
fn a_platform_without_support_refuses() {
    let mut sessions: ProcessSessionRegistry<()> = ProcessSessionRegistry::new(1, 1);
    assert!(sessions
        .list(&UnsupportedProcessBackend, &ListProcessesRequest { names: Vec::new() })
        .is_err());
    let error = sessions
        .open(
            &UnsupportedProcessBackend,
            &OpenProcessRequest {
                pid: 1,
                expected_identity: None,
                access_mode: ProcessAccessMode::ReadOnly,
            },
        )
        .expect_err("refused")
        .into_rpc_error(4, "process.open");
    assert_eq!(error.operation, "process.open");
    assert_eq!(error.request_id, 4);
}
