//! Game clients: which windows belong to which game process, under names that
//! stay the same from one discovery to the next.

use vstd::prelude::*;
use vstd::string::*;

use crate::backend::{
    ClientWindowCandidate, ClientWindowTarget, ProcessBackend, ProcessBackendError,
    ProcessBackendErrorKind,
};
use crate::protocol::{
    ClientDescriptor, ClientId, ListClientsResponse, ProcessDescriptor, ProcessIdentity,
    ProcessKind,
};
use crate::text::{
    ascii_lowercase, dec_text, digit_char, format_decimal, join2, join3, lowered,
    same_ignoring_case, same_text,
};

verus! {

/// What makes a client the same client.
pub ghost struct ClientKey {
    pub window: u64,
    pub pid: u32,
    pub created: Seq<char>,
    pub path: Seq<char>,
}

/// The key of a window of a process. Executable paths count without regard to
/// case, so that a client keeps its name if its path is reported in other case.
pub open spec fn client_key(window: u64, identity: ProcessIdentity) -> ClientKey {
    ClientKey {
        window,
        pid: identity.pid,
        created: identity.creation_time_100ns@,
        path: lowered(identity.executable_path@),
    }
}

/// Two identities of one process, path case ignored.
pub open spec fn same_process(a: ProcessIdentity, b: ProcessIdentity) -> bool {
    &&& a.pid == b.pid
    &&& a.creation_time_100ns@ == b.creation_time_100ns@
    &&& lowered(a.executable_path@) == lowered(b.executable_path@)
}

/// The last identified game process of that id.
pub open spec fn game_process(processes: Seq<ProcessDescriptor>, pid: u32) -> Option<
    ProcessDescriptor,
>
    decreases processes.len(),
{
    if processes.len() == 0 {
        None
    } else {
        let last = processes.last();
        if last.kind == ProcessKind::Wizard101 && last.identity is Some && last.pid == pid {
            Some(last)
        } else {
            game_process(processes.drop_last(), pid)
        }
    }
}

/// A window that was found to belong to a game process.
pub ghost struct Found {
    pub order: int,
    pub window: ClientWindowCandidate,
    pub process: ProcessDescriptor,
}

impl Found {
    pub open spec fn key(self) -> ClientKey {
        client_key(self.window.native_window_id, self.process.identity->0)
    }

    /// Reading order on the screen: by row, then by column, then as found.
    pub open spec fn stands_before(self, other: Found) -> bool {
        ||| self.window.top < other.window.top
        ||| self.window.top == other.window.top && self.window.left < other.window.left
        ||| self.window.top == other.window.top && self.window.left == other.window.left
            && self.order < other.order
    }
}

/// Whether a key was found already.
pub open spec fn found_before(list: Seq<Found>, key: ClientKey) -> bool {
    exists|i: int| 0 <= i < list.len() && (#[trigger] list[i]).key() == key
}

/// The windows that belong to game processes, each client once.
pub open spec fn found(
    windows: Seq<ClientWindowCandidate>,
    processes: Seq<ProcessDescriptor>,
) -> Seq<Found>
    decreases windows.len(),
{
    if windows.len() == 0 {
        Seq::empty()
    } else {
        let before = found(windows.drop_last(), processes);
        let window = windows.last();
        match game_process(processes, window.pid) {
            Some(process) => {
                let next = Found { order: windows.len() - 1, window, process };
                if same_process(window.process_identity, process.identity->0) && !found_before(
                    before,
                    next.key(),
                ) {
                    before.push(next)
                } else {
                    before
                }
            },
            None => before,
        }
    }
}

/// How many of the windows stand before one of them.
pub open spec fn standing_before(list: Seq<Found>, window: Found) -> nat
    decreases list.len(),
{
    if list.len() == 0 {
        0
    } else {
        standing_before(list.drop_last(), window) + if list.last().stands_before(window) {
            1nat
        } else {
            0nat
        }
    }
}

/// What a client registry holds.
pub ghost struct Clients {
    pub entries: Seq<(ClientKey, Seq<char>)>,
    pub id_prefix: Seq<char>,
    pub next_client: nat,
}

/// The name of a client by its number.
pub open spec fn client_name(prefix: Seq<char>, number: nat) -> Seq<char> {
    prefix + "-"@ + dec_text(number)
}

/// The name under which a key is held.
pub open spec fn held_name(entries: Seq<(ClientKey, Seq<char>)>, key: ClientKey) -> Option<
    Seq<char>,
>
    decreases entries.len(),
{
    if entries.len() == 0 {
        None
    } else if entries.last().0 == key {
        Some(entries.last().1)
    } else {
        held_name(entries.drop_last(), key)
    }
}

/// The names that found windows get, and the next free number: a window that
/// was held keeps its name, another gets the next one.
pub open spec fn naming(held: Clients, list: Seq<Found>) -> (Seq<(ClientKey, Seq<char>)>, nat)
    decreases list.len(),
{
    if list.len() == 0 {
        (Seq::empty(), held.next_client)
    } else {
        let (names, next) = naming(held, list.drop_last());
        let key = list.last().key();
        match held_name(held.entries, key) {
            Some(name) => (names.push((key, name)), next),
            None => (names.push((key, client_name(held.id_prefix, next))), next + 1),
        }
    }
}

/// The registry after a discovery.
pub open spec fn after_discovery(held: Clients, list: Seq<Found>) -> Clients {
    Clients {
        entries: naming(held, list).0,
        next_client: naming(held, list).1,
        id_prefix: held.id_prefix,
    }
}

/// A listing that describes the found windows under their names.
pub open spec fn lists_clients(
    response: ListClientsResponse,
    entries: Seq<(ClientKey, Seq<char>)>,
    list: Seq<Found>,
) -> bool {
    &&& response.clients@.len() == list.len()
    &&& forall|i: int|
        #![trigger response.clients@[i]]
        0 <= i < list.len() ==> {
            &&& response.clients@[i].client_id.0@ == entries[i].1
            &&& response.clients@[i].process == list[i].process
            &&& response.clients@[i].is_foreground == list[i].window.is_foreground
            &&& response.clients@[i].screen_order == standing_before(list, list[i])
        }
}

impl Clients {
    /// Keys and names occur once, and each name carries a number handed out.
    pub open spec fn sound(self) -> bool {
        &&& forall|i: int, j: int|
            0 <= i < j < self.entries.len() ==> (#[trigger] self.entries[i]).0 != (
            #[trigger] self.entries[j]).0
        &&& forall|i: int, j: int|
            0 <= i < j < self.entries.len() ==> (#[trigger] self.entries[i]).1 != (
            #[trigger] self.entries[j]).1
        &&& forall|i: int|
            0 <= i < self.entries.len() ==> numbered(
                (#[trigger] self.entries[i]).1,
                self.id_prefix,
                self.next_client,
            )
    }
}

/// A name that carries a number below `next`.
pub open spec fn numbered(name: Seq<char>, prefix: Seq<char>, next: nat) -> bool {
    exists|n: nat| n < next && name == #[trigger] client_name(prefix, n)
}

proof fn lemma_dec_text_injective(a: nat, b: nat)
    requires
        dec_text(a) == dec_text(b),
    ensures
        a == b,
    decreases a,
{
    let x = dec_text(a);
    let y = dec_text(b);
    assert(x.last() == digit_char((a % 10) as int));
    assert(y.last() == digit_char((b % 10) as int));
    if a >= 10 && b >= 10 {
        assert(x.drop_last() =~= dec_text(a / 10));
        assert(y.drop_last() =~= dec_text(b / 10));
        lemma_dec_text_injective(a / 10, b / 10);
    } else if a >= 10 {
        lemma_dec_text_nonempty(a / 10);
    } else if b >= 10 {
        lemma_dec_text_nonempty(b / 10);
    }
}

proof fn lemma_dec_text_nonempty(a: nat)
    ensures
        dec_text(a).len() > 0,
{
    reveal_with_fuel(dec_text, 1);
}

/// Two numbers give two client names.
pub proof fn client_names_differ(prefix: Seq<char>, a: nat, b: nat)
    requires
        a != b,
    ensures
        client_name(prefix, a) != client_name(prefix, b),
{
    if client_name(prefix, a) == client_name(prefix, b) {
        let head = prefix + "-"@;
        assert(client_name(prefix, a).skip(head.len() as int) =~= dec_text(a));
        assert(client_name(prefix, b).skip(head.len() as int) =~= dec_text(b));
        lemma_dec_text_injective(a, b);
    }
}

proof fn lemma_held_name(entries: Seq<(ClientKey, Seq<char>)>, key: ClientKey)
    ensures
        held_name(entries, key) matches Some(name) ==> exists|i: int|
            0 <= i < entries.len() && #[trigger] entries[i] == (key, name),
        held_name(entries, key) is None ==> forall|i: int|
            0 <= i < entries.len() ==> (#[trigger] entries[i]).0 != key,
    decreases entries.len(),
{
    if entries.len() > 0 {
        lemma_held_name(entries.drop_last(), key);
        if entries.last().0 != key {
            if let Some(name) = held_name(entries, key) {
                let i = choose|i: int|
                    0 <= i < entries.drop_last().len() && #[trigger] entries.drop_last()[i] == (
                        key,
                        name,
                    );
                assert(entries[i] == (key, name));
            } else {
                assert forall|i: int| 0 <= i < entries.len() implies (#[trigger] entries[i]).0
                    != key by {
                    if i < entries.len() - 1 {
                        assert(entries.drop_last()[i] == entries[i]);
                    }
                }
            }
        } else {
            assert(entries[entries.len() - 1].0 == key);
        }
    }
}

/// Found windows are found in order, each key once.
proof fn lemma_found(windows: Seq<ClientWindowCandidate>, processes: Seq<ProcessDescriptor>)
    ensures
        found(windows, processes).len() <= windows.len(),
        forall|i: int|
            0 <= i < found(windows, processes).len() ==> 0 <= (#[trigger] found(
                windows,
                processes,
            )[i]).order < windows.len(),
        forall|i: int, j: int|
            0 <= i < j < found(windows, processes).len() ==> (#[trigger] found(
                windows,
                processes,
            )[i]).key() != (#[trigger] found(windows, processes)[j]).key(),
    decreases windows.len(),
{
    if windows.len() > 0 {
        lemma_found(windows.drop_last(), processes);
    }
}

/// Naming gives every found window its own name, and a window that was held
/// keeps the name that it had.
pub proof fn names_are_stable_and_distinct(held: Clients, list: Seq<Found>)
    requires
        held.sound(),
        forall|i: int, j: int|
            0 <= i < j < list.len() ==> (#[trigger] list[i]).key() != (#[trigger] list[j]).key(),
    ensures
        after_discovery(held, list).sound(),
        naming(held, list).0.len() == list.len(),
        naming(held, list).1 <= held.next_client + list.len(),
        naming(held, list).1 >= held.next_client,
        forall|i: int|
            0 <= i < list.len() ==> (#[trigger] naming(held, list).0[i]).0 == list[i].key(),
        forall|i: int, k: int|
            0 <= i < list.len() && 0 <= k < held.entries.len() && (#[trigger] held.entries[k]).0 == (
            #[trigger] naming(held, list).0[i]).0 ==> naming(held, list).0[i].1
                == held.entries[k].1,
    decreases list.len(),
{
    if list.len() > 0 {
        let front = list.drop_last();
        assert forall|i: int, j: int| 0 <= i < j < front.len() implies (#[trigger] front[i]).key()
            != (#[trigger] front[j]).key() by {
            assert(list[i].key() != list[j].key());
        }
        names_are_stable_and_distinct(held, front);
        let (names, next) = naming(held, front);
        let (all, after) = naming(held, list);
        let key = list.last().key();
        lemma_held_name(held.entries, key);
        assert forall|i: int| 0 <= i < names.len() implies (#[trigger] names[i]).0 != key by {
            assert(front[i] == list[i]);
            assert(list[i].key() != list[list.len() - 1].key());
        }
        assert forall|i: int| 0 <= i < list.len() implies (#[trigger] all[i]).0 == list[i].key() by {
            if i < front.len() {
                assert(names[i].0 == front[i].key());
            }
        }
        let fresh = all[all.len() - 1].1;
        assert(numbered(fresh, held.id_prefix, after)) by {
            match held_name(held.entries, key) {
                Some(name) => {
                    let k = choose|k: int|
                        0 <= k < held.entries.len() && #[trigger] held.entries[k] == (key, name);
                    lemma_numbered_grows(name, held.id_prefix, held.next_client, after);
                },
                None => {
                    assert(fresh == client_name(held.id_prefix, next));
                },
            }
        }
        assert forall|i: int| 0 <= i < names.len() implies (#[trigger] names[i]).1 != fresh by {
            lemma_name_differs(held, front, i, key, fresh);
        }
        assert forall|i: int| 0 <= i < all.len() implies numbered(
            (#[trigger] all[i]).1,
            held.id_prefix,
            after,
        ) by {
            if i < names.len() {
                assert(all[i] == names[i]);
                assert(after_discovery(held, front).entries[i] == names[i]);
                lemma_numbered_grows(names[i].1, held.id_prefix, next, after);
            }
        }
        assert forall|i: int, j: int| 0 <= i < j < all.len() implies (#[trigger] all[i]).1 != (
        #[trigger] all[j]).1 by {
            assert(after_discovery(held, front).entries == names);
            if j < names.len() {
                assert(names[i].1 != names[j].1);
            } else {
                assert(names[i] == all[i]);
            }
        }
        assert forall|i: int, j: int| 0 <= i < j < all.len() implies (#[trigger] all[i]).0 != (
        #[trigger] all[j]).0 by {
            assert(after_discovery(held, front).entries == names);
            if j < names.len() {
                assert(names[i].0 != names[j].0);
            } else {
                assert(names[i] == all[i]);
            }
        }
        assert forall|i: int, k: int|
            0 <= i < list.len() && 0 <= k < held.entries.len() && (#[trigger] held.entries[k]).0 == (
            #[trigger] all[i]).0 implies all[i].1 == held.entries[k].1 by {
            if i < names.len() {
                assert(all[i] == names[i]);
            } else {
                let n = choose|n: int|
                    0 <= n < held.entries.len() && #[trigger] held.entries[n] == (
                        key,
                        held_name(held.entries, key)->0,
                    );
                assert(n == k);
            }
        }
    }
}

/// A window that was not held gets a name that was never handed out: none of the numbers
/// before gives it.
pub proof fn new_windows_get_new_names(held: Clients, list: Seq<Found>, i: int, n: nat)
    requires
        0 <= i < list.len(),
        forall|k: int| 0 <= k < held.entries.len() ==> (#[trigger] held.entries[k]).0
            != list[i].key(),
        n < held.next_client,
    ensures
        naming(held, list).0[i].1 != client_name(held.id_prefix, n),
    decreases list.len(),
{
    let front = list.drop_last();
    lemma_naming_grows(held, front);
    lemma_naming_grows(held, list);
    if i < front.len() {
        assert(front[i] == list[i]);
        new_windows_get_new_names(held, front, i, n);
    } else {
        lemma_held_name(held.entries, list.last().key());
        client_names_differ(held.id_prefix, n, naming(held, front).1);
    }
}

proof fn lemma_numbered_grows(name: Seq<char>, prefix: Seq<char>, less: nat, more: nat)
    requires
        numbered(name, prefix, less),
        less <= more,
    ensures
        numbered(name, prefix, more),
{
    let n = choose|n: nat| n < less && name == #[trigger] client_name(prefix, n);
    assert(name == client_name(prefix, n));
}

/// The name of a further window differs from the names given before.
proof fn lemma_name_differs(held: Clients, front: Seq<Found>, i: int, key: ClientKey, fresh: Seq<char>)
    requires
        held.sound(),
        0 <= i < naming(held, front).0.len(),
        naming(held, front).0.len() == front.len(),
        forall|j: int| 0 <= j < front.len() ==> (#[trigger] front[j]).key() != key,
        fresh == (match held_name(held.entries, key) {
            Some(name) => name,
            None => client_name(held.id_prefix, naming(held, front).1),
        }),
    ensures
        naming(held, front).0[i].1 != fresh,
    decreases front.len(),
{
    let names = naming(held, front).0;
    let before = front.drop_last();
    let last = front.last().key();
    lemma_held_name(held.entries, last);
    lemma_held_name(held.entries, key);
    lemma_naming_grows(held, front);
    lemma_naming_grows(held, before);
    match held_name(held.entries, key) {
        Some(name) => {
            let k = choose|k: int|
                0 <= k < held.entries.len() && #[trigger] held.entries[k] == (key, name);
            if i < before.len() {
                assert(forall|j: int| 0 <= j < before.len() ==> before[j] == front[j]);
                lemma_name_differs(held, before, i, key, fresh);
            } else {
                assert(front[front.len() - 1].key() != key);
                match held_name(held.entries, last) {
                    Some(other) => {
                        let m = choose|m: int|
                            0 <= m < held.entries.len() && #[trigger] held.entries[m] == (
                                last,
                                other,
                            );
                        assert(m != k);
                        if m < k {
                            assert(held.entries[m].1 != held.entries[k].1);
                        } else {
                            assert(held.entries[k].1 != held.entries[m].1);
                        }
                    },
                    None => {
                        let n = choose|n: nat|
                            n < held.next_client && name == #[trigger] client_name(
                                held.id_prefix,
                                n,
                            );
                        client_names_differ(held.id_prefix, n, naming(held, before).1);
                    },
                }
            }
        },
        None => {
            let next = naming(held, front).1;
            lemma_naming_numbered(held, front, i);
            let n = choose|n: nat|
                n < next && names[i].1 == #[trigger] client_name(held.id_prefix, n);
            client_names_differ(held.id_prefix, n, next);
        },
    }
}

proof fn lemma_naming_grows(held: Clients, list: Seq<Found>)
    ensures
        naming(held, list).1 >= held.next_client,
        naming(held, list).0.len() == list.len(),
    decreases list.len(),
{
    if list.len() > 0 {
        lemma_naming_grows(held, list.drop_last());
    }
}

proof fn lemma_naming_numbered(held: Clients, list: Seq<Found>, i: int)
    requires
        held.sound(),
        0 <= i < list.len(),
    ensures
        numbered(naming(held, list).0[i].1, held.id_prefix, naming(held, list).1),
    decreases list.len(),
{
    let before = list.drop_last();
    let (names, next) = naming(held, before);
    let (all, after) = naming(held, list);
    lemma_naming_grows(held, before);
    lemma_naming_grows(held, list);
    if i < before.len() {
        lemma_naming_numbered(held, before, i);
        lemma_numbered_grows(names[i].1, held.id_prefix, next, after);
    } else {
        let key = list.last().key();
        lemma_held_name(held.entries, key);
        match held_name(held.entries, key) {
            Some(name) => {
                let k = choose|k: int|
                    0 <= k < held.entries.len() && #[trigger] held.entries[k] == (key, name);
                lemma_numbered_grows(name, held.id_prefix, held.next_client, after);
            },
            None => {
                assert(all[i].1 == client_name(held.id_prefix, next));
            },
        }
    }
}

#[derive(Debug)]
struct ClientRegistryKey {
    native_window_id: u64,
    pid: u32,
    creation_time_100ns: String,
    executable_path: String,
}

impl View for ClientRegistryKey {
    type V = ClientKey;

    closed spec fn view(&self) -> ClientKey {
        ClientKey {
            window: self.native_window_id,
            pid: self.pid,
            created: self.creation_time_100ns@,
            path: self.executable_path@,
        }
    }
}

impl ClientRegistryKey {
    fn new(native_window_id: u64, process_identity: &ProcessIdentity) -> (key: Self)
        ensures
            key@ == client_key(native_window_id, *process_identity),
    {
        ClientRegistryKey {
            native_window_id,
            pid: process_identity.pid,
            creation_time_100ns: process_identity.creation_time_100ns.clone(),
            executable_path: ascii_lowercase(process_identity.executable_path.as_str()),
        }
    }

    fn same(&self, other: &Self) -> (same: bool)
        ensures
            same == (self@ == other@),
    {
        self.native_window_id == other.native_window_id && self.pid == other.pid && same_text(
            self.creation_time_100ns.as_str(),
            other.creation_time_100ns.as_str(),
        ) && same_text(self.executable_path.as_str(), other.executable_path.as_str())
    }
}

/// Whether two identities are of one process, path case ignored.
pub fn same_process_identity(left: &ProcessIdentity, right: &ProcessIdentity) -> (same: bool)
    ensures
        same == same_process(*left, *right),
{
    left.pid == right.pid && same_text(
        left.creation_time_100ns.as_str(),
        right.creation_time_100ns.as_str(),
    ) && same_ignoring_case(left.executable_path.as_str(), right.executable_path.as_str())
}

fn find_game_process(processes: &Vec<ProcessDescriptor>, pid: u32) -> (found: Option<usize>)
    ensures
        match found {
            Some(i) => i < processes@.len() && game_process(processes@, pid) == Some(
                processes@[i as int],
            ) && processes@[i as int].identity is Some,
            None => game_process(processes@, pid) is None,
        },
{
    let mut i: usize = processes.len();
    proof {
        assert(processes@.take(i as int) =~= processes@);
    }
    while i > 0
        invariant
            i <= processes@.len(),
            game_process(processes@.take(i as int), pid) == game_process(processes@, pid),
        decreases i,
    {
        proof {
            assert(processes@.take(i as int).drop_last() =~= processes@.take(i - 1));
            assert(processes@.take(i as int).last() == processes@[i - 1]);
        }
        let process = &processes[i - 1];
        if process.kind == ProcessKind::Wizard101 && process.identity.is_some() && process.pid
            == pid {
            return Some(i - 1);
        }
        i -= 1;
    }
    None
}

struct Discovered {
    order: usize,
    window: ClientWindowCandidate,
    key: ClientRegistryKey,
    process: ProcessDescriptor,
}

impl Discovered {
    spec fn found(&self) -> Found {
        Found { order: self.order as int, window: self.window, process: self.process }
    }
}

spec fn discoveries(list: Seq<Discovered>) -> Seq<Found> {
    list.map_values(|item: Discovered| item.found())
}

fn discover_windows(windows: &Vec<ClientWindowCandidate>, processes: &Vec<ProcessDescriptor>) -> (list:
    Vec<Discovered>)
    ensures
        discoveries(list@) == found(windows@, processes@),
        forall|i: int| 0 <= i < list@.len() ==> (#[trigger] list@[i]).key@ == list@[i].found().key(),
{
    let mut list: Vec<Discovered> = Vec::new();
    let mut order: usize = 0;
    proof {
        assert(discoveries(list@) =~= found(windows@.take(0), processes@));
    }
    while order < windows.len()
        invariant
            order <= windows@.len(),
            discoveries(list@) == found(windows@.take(order as int), processes@),
            forall|i: int|
                0 <= i < list@.len() ==> (#[trigger] list@[i]).key@ == list@[i].found().key(),
        decreases windows@.len() - order,
    {
        let window = &windows[order];
        let ghost next = windows@.take(order + 1);
        let ghost before = discoveries(list@);
        proof {
            assert(next.drop_last() =~= windows@.take(order as int));
            assert(next.last() == *window);
        }
        if let Some(at) = find_game_process(processes, window.pid) {
            let process = &processes[at];
            if let Some(identity) = &process.identity {
                if same_process_identity(&window.process_identity, identity) {
                    let key = ClientRegistryKey::new(window.native_window_id, identity);
                    let ghost item = Found {
                        order: order as int,
                        window: *window,
                        process: *process,
                    };
                    let mut seen = false;
                    let mut i: usize = 0;
                    while i < list.len()
                        invariant
                            i <= list@.len(),
                            before == discoveries(list@),
                            forall|j: int|
                                0 <= j < list@.len() ==> (#[trigger] list@[j]).key@
                                    == list@[j].found().key(),
                            seen == exists|j: int|
                                0 <= j < i && (#[trigger] before[j]).key() == key@,
                        decreases list@.len() - i,
                    {
                        let repeated = list[i].key.same(&key);
                        proof {
                            assert(before[i as int] == list@[i as int].found());
                        }
                        if repeated {
                            seen = true;
                        }
                        i += 1;
                    }
                    proof {
                        assert(key@ == item.key());
                        assert(seen == found_before(before, key@));
                    }
                    if !seen {
                        list.push(
                            Discovered {
                                order,
                                window: window.clone(),
                                key,
                                process: process.clone(),
                            },
                        );
                        proof {
                            assert(discoveries(list@) =~= before.push(item));
                        }
                    }
                }
            }
        }
        order += 1;
    }
    proof {
        assert(windows@.take(order as int) =~= windows@);
    }
    list
}

fn stands_before(a: &Discovered, b: &Discovered) -> (before: bool)
    ensures
        before == a.found().stands_before(b.found()),
{
    a.window.top < b.window.top || (a.window.top == b.window.top && (a.window.left < b.window.left
        || (a.window.left == b.window.left && a.order < b.order)))
}

fn screen_order(list: &Vec<Discovered>, window: &Discovered) -> (order: usize)
    ensures
        order == standing_before(discoveries(list@), window.found()),
{
    let mut order: usize = 0;
    let mut i: usize = 0;
    let ghost all = discoveries(list@);
    while i < list.len()
        invariant
            i <= list@.len(),
            all == discoveries(list@),
            order <= i,
            order == standing_before(all.take(i as int), window.found()),
        decreases list@.len() - i,
    {
        proof {
            assert(all.take(i + 1).drop_last() =~= all.take(i as int));
            assert(all.take(i + 1).last() == list@[i as int].found());
        }
        if stands_before(&list[i], window) {
            order += 1;
        }
        i += 1;
    }
    proof {
        assert(all.take(i as int) =~= all);
    }
    order
}

/// What a discovery answers for what the platform reported. Where the numbers
/// run out, which no run of an agent lives to see, the discovery fails.
pub open spec fn discovers(
    held: Clients,
    windows: Result<Vec<ClientWindowCandidate>, ProcessBackendError>,
    processes: Result<Vec<ProcessDescriptor>, ProcessBackendError>,
    later: Clients,
    answer: Result<ListClientsResponse, ProcessBackendError>,
) -> bool {
    match (windows, processes) {
        (Err(error), _) => later == held && answer == Err::<ListClientsResponse, _>(error),
        (_, Err(error)) => later == held && answer == Err::<ListClientsResponse, _>(error),
        (Ok(windows), Ok(processes)) => if held.next_client + windows@.len() > u64::MAX {
            later == held && (answer matches Err(error) && error.says(
                ProcessBackendErrorKind::Native,
                "client identifiers are exhausted"@,
            ))
        } else {
            &&& later == after_discovery(held, found(windows@, processes@))
            &&& answer matches Ok(response) && lists_clients(
                response,
                later.entries,
                found(windows@, processes@),
            )
        },
    }
}

/// The outcomes of the calls that a discovery makes.
pub open spec fn discovery_reported<B: ProcessBackend>(
    backend: &B,
    windows: Result<Vec<ClientWindowCandidate>, ProcessBackendError>,
    processes: Result<Vec<ProcessDescriptor>, ProcessBackendError>,
) -> bool {
    &&& call_ensures(B::list_client_windows, (backend,), windows)
    &&& windows is Ok ==> call_ensures(B::list_processes, (backend,), processes)
}

/// The entry of a client name.
pub open spec fn entry_of(held: Clients, name: Seq<char>) -> Option<ClientKey> {
    if exists|i: int| 0 <= i < held.entries.len() && (#[trigger] held.entries[i]).1 == name {
        Some(
            held.entries[choose|i: int|
                0 <= i < held.entries.len() && (#[trigger] held.entries[i]).1 == name].0,
        )
    } else {
        None
    }
}

/// What looking a client up answers after a discovery.
pub open spec fn resolves(
    held: Clients,
    name: Seq<char>,
    answer: Result<ClientWindowTarget, ProcessBackendError>,
) -> bool {
    match (entry_of(held, name), answer) {
        (Some(key), Ok(target)) => {
            &&& target.native_window_id == key.window
            &&& target.process_identity.pid == key.pid
            &&& target.process_identity.creation_time_100ns@ == key.created
            &&& target.process_identity.executable_path@ == key.path
        },
        (None, Err(error)) => error.says(
            ProcessBackendErrorKind::NotFound,
            "client "@ + name + " is no longer associated with an active Wizard101 window"@,
        ),
        _ => false,
    }
}

/// The game clients that were active at the last discovery.
pub struct ClientRegistry {
    clients: Vec<(ClientRegistryKey, ClientId)>,
    id_prefix: String,
    next_client: u64,
}

impl View for ClientRegistry {
    type V = Clients;

    closed spec fn view(&self) -> Clients {
        Clients {
            entries: self.clients@.map_values(
                |entry: (ClientRegistryKey, ClientId)| (entry.0@, entry.1.0@),
            ),
            id_prefix: self.id_prefix@,
            next_client: self.next_client as nat,
        }
    }
}

impl ClientRegistry {
    /// Each client is held once, under a name of its own.
    pub open spec fn wf(&self) -> bool {
        self@.sound()
    }

    /// An empty registry whose client names carry its number.
    pub fn new(registry: u64) -> (made: Self)
        ensures
            made.wf(),
            made@ == (Clients {
                entries: Seq::<(ClientKey, Seq<char>)>::empty(),
                id_prefix: "client-"@ + dec_text(registry as nat),
                next_client: 1,
            }),
    {
        let number = format_decimal(registry);
        let made = ClientRegistry {
            clients: Vec::new(),
            id_prefix: join2("client-", number.as_str()),
            next_client: 1,
        };
        proof {
            assert(made@.entries =~= Seq::<(ClientKey, Seq<char>)>::empty());
        }
        made
    }

    fn known_id(&self, key: &ClientRegistryKey) -> (name: Option<ClientId>)
        ensures
            match name {
                Some(id) => held_name(self@.entries, key@) == Some(id.0@),
                None => held_name(self@.entries, key@) is None,
            },
    {
        let mut i: usize = self.clients.len();
        let ghost entries = self@.entries;
        proof {
            assert(entries.take(i as int) =~= entries);
        }
        while i > 0
            invariant
                i <= self.clients@.len(),
                entries == self@.entries,
                held_name(entries.take(i as int), key@) == held_name(entries, key@),
            decreases i,
        {
            proof {
                assert(entries.take(i as int).drop_last() =~= entries.take(i - 1));
                assert(entries.take(i as int).last() == (
                    self.clients@[i - 1].0@,
                    self.clients@[i - 1].1.0@,
                ));
            }
            if self.clients[i - 1].0.same(key) {
                return Some(self.clients[i - 1].1.clone());
            }
            i -= 1;
        }
        None
    }

    /// Takes in what the platform reported and names the clients.
    pub fn discover(
        &mut self,
        windows: &Vec<ClientWindowCandidate>,
        processes: &Vec<ProcessDescriptor>,
    ) -> (response: ListClientsResponse)
        requires
            old(self).wf(),
            old(self)@.next_client + windows@.len() <= u64::MAX,
        ensures
            final(self).wf(),
            final(self)@ == after_discovery(old(self)@, found(windows@, processes@)),
            lists_clients(response, final(self)@.entries, found(windows@, processes@)),
    {
        let list = discover_windows(windows, processes);
        let ghost held = self@;
        let ghost all = found(windows@, processes@);
        proof {
            lemma_found(windows@, processes@);
            names_are_stable_and_distinct(held, all);
        }
        let mut active: Vec<(ClientRegistryKey, ClientId)> = Vec::new();
        let mut clients: Vec<ClientDescriptor> = Vec::new();
        let mut next: u64 = self.next_client;
        let ghost view = |entry: (ClientRegistryKey, ClientId)| (entry.0@, entry.1.0@);
        let mut i: usize = 0;
        proof {
            assert(all.take(0) =~= Seq::<Found>::empty());
            assert(active@.map_values(view) =~= naming(held, all.take(0)).0);
        }
        while i < list.len()
            invariant
                i <= list@.len(),
                held == self@,
                *self == *old(self),
                all == discoveries(list@),
                list@.len() == all.len(),
                all.len() <= windows@.len(),
                held.next_client + windows@.len() <= u64::MAX,
                forall|j: int|
                    0 <= j < list@.len() ==> (#[trigger] list@[j]).key@ == list@[j].found().key(),
                view == (|entry: (ClientRegistryKey, ClientId)| (entry.0@, entry.1.0@)),
                active@.map_values(view) == naming(held, all.take(i as int)).0,
                next == naming(held, all.take(i as int)).1,
                next <= held.next_client + i,
                active@.len() == i,
                clients@.len() == i,
                forall|j: int|
                    #![trigger clients@[j]]
                    0 <= j < i ==> {
                        &&& clients@[j].client_id.0@ == naming(held, all.take(i as int)).0[j].1
                        &&& clients@[j].process == all[j].process
                        &&& clients@[j].is_foreground == all[j].window.is_foreground
                        &&& clients@[j].screen_order == standing_before(all, all[j])
                    },
            decreases list@.len() - i,
        {
            let item = &list[i];
            let ghost part = all.take(i as int);
            let ghost more = all.take(i + 1);
            let ghost names = active@.map_values(view);
            proof {
                assert(more.drop_last() =~= part);
                assert(all[i as int] == item.found());
                assert(more.last() == item.found());
                lemma_naming_grows(held, part);
            }
            let client_id = match self.known_id(&item.key) {
                Some(id) => id,
                None => {
                    let number = format_decimal(next);
                    let name = join3(self.id_prefix.as_str(), "-", number.as_str());
                    next = next + 1;
                    ClientId(name)
                },
            };
            let key = ClientRegistryKey {
                native_window_id: item.key.native_window_id,
                pid: item.key.pid,
                creation_time_100ns: item.key.creation_time_100ns.clone(),
                executable_path: item.key.executable_path.clone(),
            };
            let ghost name = client_id.0@;
            active.push((key, client_id.clone()));
            let order: usize = screen_order(&list, item);
            clients.push(
                ClientDescriptor {
                    client_id,
                    process: item.process.clone(),
                    is_foreground: item.window.is_foreground,
                    screen_order: order,
                },
            );
            proof {
                assert(active@.map_values(view) =~= names.push((key@, name)));
                assert(naming(held, more).0 == names.push((key@, name)));
            }
            i += 1;
        }
        proof {
            assert(all.take(i as int) =~= all);
        }
        self.clients = active;
        self.next_client = next;
        ListClientsResponse { clients }
    }

    /// Lists the active game clients.
    pub fn list<B: ProcessBackend>(&mut self, backend: &B) -> (answer: Result<
        ListClientsResponse,
        ProcessBackendError,
    >)
        requires
            old(self).wf(),
        ensures
            final(self).wf(),
            exists|
                windows: Result<Vec<ClientWindowCandidate>, ProcessBackendError>,
                processes: Result<Vec<ProcessDescriptor>, ProcessBackendError>,
            | #[trigger]
                discovery_reported(backend, windows, processes) && discovers(
                    old(self)@,
                    windows,
                    processes,
                    final(self)@,
                    answer,
                ),
            answer matches Ok(response) ==> forall|i: int, j: int|
                0 <= i < j < response.clients@.len() ==> (
                #[trigger] response.clients@[i]).client_id.0@ != (
                #[trigger] response.clients@[j]).client_id.0@,
            answer is Err ==> final(self)@ == old(self)@,
    {
        let windows = match backend.list_client_windows() {
            Ok(windows) => windows,
            Err(error) => {
                proof {
                    let processes: Result<Vec<ProcessDescriptor>, ProcessBackendError> =
                        arbitrary();
                    assert(discovery_reported(backend, Err(error), processes));
                }
                return Err(error);
            },
        };
        let processes = match backend.list_processes() {
            Ok(processes) => processes,
            Err(error) => {
                assert(discovery_reported(backend, Ok(windows), Err(error)));
                return Err(error);
            },
        };
        assert(discovery_reported(backend, Ok(windows), Ok(processes)));
        if windows.len() as u64 > u64::MAX - self.next_client {
            return Err(
                ProcessBackendError::new(
                    ProcessBackendErrorKind::Native,
                    "client identifiers are exhausted",
                ),
            );
        }
        let ghost held = self@;
        let response = self.discover(&windows, &processes);
        proof {
            let list = found(windows@, processes@);
            lemma_found(windows@, processes@);
            names_are_stable_and_distinct(held, list);
            assert(after_discovery(held, list).entries == naming(held, list).0);
        }
        Ok(response)
    }

    /// Looks up the window of a client that is still active.
    pub fn resolve<B: ProcessBackend>(
        &mut self,
        backend: &B,
        client_id: &ClientId,
    ) -> (answer: Result<ClientWindowTarget, ProcessBackendError>)
        requires
            old(self).wf(),
        ensures
            final(self).wf(),
            exists|
                windows: Result<Vec<ClientWindowCandidate>, ProcessBackendError>,
                processes: Result<Vec<ProcessDescriptor>, ProcessBackendError>,
                listed: Result<ListClientsResponse, ProcessBackendError>,
            |
                {
                    &&& #[trigger] discovery_reported(backend, windows, processes)
                    &&& #[trigger] discovers(
                        old(self)@,
                        windows,
                        processes,
                        final(self)@,
                        listed,
                    )
                    &&& match listed {
                        Err(error) => answer == Err::<ClientWindowTarget, _>(error),
                        Ok(_) => resolves(final(self)@, client_id.0@, answer),
                    }
                },
    {
        let listed = self.list(backend);
        if let Err(error) = listed {
            return Err(error);
        }
        self.lookup(client_id)
    }

    /// Looks up the window of a client among those of the last discovery.
    pub fn lookup(&self, client_id: &ClientId) -> (answer: Result<
        ClientWindowTarget,
        ProcessBackendError,
    >)
        requires
            self.wf(),
        ensures
            resolves(self@, client_id.0@, answer),
    {
        let ghost held = self@;
        let ghost name = client_id.0@;
        let mut i: usize = 0;
        while i < self.clients.len()
            invariant
                i <= self.clients@.len(),
                held == self@,
                held.sound(),
                name == client_id.0@,
                forall|j: int| 0 <= j < i ==> (#[trigger] held.entries[j]).1 != name,
            decreases self.clients@.len() - i,
        {
            let key = &self.clients[i].0;
            proof {
                assert(held.entries[i as int] == (key@, self.clients@[i as int].1.0@));
            }
            if same_text(self.clients[i].1.0.as_str(), client_id.0.as_str()) {
                proof {
                    let k = choose|k: int|
                        0 <= k < held.entries.len() && (#[trigger] held.entries[k]).1 == name;
                    assert(held.entries[i as int].1 == name);
                    if k < i {
                        assert(held.entries[k].1 != held.entries[i as int].1);
                    } else if k > i {
                        assert(held.entries[i as int].1 != held.entries[k].1);
                    }
                }
                return Ok(
                    ClientWindowTarget {
                        native_window_id: key.native_window_id,
                        process_identity: ProcessIdentity {
                            pid: key.pid,
                            creation_time_100ns: key.creation_time_100ns.clone(),
                            executable_path: key.executable_path.clone(),
                        },
                    },
                );
            }
            i += 1;
        }
        let message = join3(
            "client ",
            client_id.0.as_str(),
            " is no longer associated with an active Wizard101 window",
        );
        Err(ProcessBackendError::new(ProcessBackendErrorKind::NotFound, message.as_str()))
    }
}

}
