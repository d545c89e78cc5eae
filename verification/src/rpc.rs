//! Failures as the host sees them.

use vstd::prelude::*;
use vstd::string::*;

use crate::ordered::{in_order, TextMap};
use crate::text::{join3, join4, join_all, joined, quoted, quoted_text, texts};

verus! {

/// The class of a failed request.
#[derive(Clone, Copy, Debug, PartialEq, Eq, Structural)]
pub enum RpcErrorCode {
    InvalidRequest,
    UnsupportedOperation,
    CapabilityRequired,
    Timeout,
    Internal,
    ProcessNotFound,
    ProcessAccessDenied,
    ProcessExited,
    SessionNotFound,
    ClientNotFound,
    WindowOperationFailed,
    InputFailed,
    MemoryInvalidAddress,
    MemoryReadFailed,
    MemoryWriteFailed,
    MemoryProtectionFailed,
    MemoryAllocationFailed,
    MemoryLimitExceeded,
    MemoryPatternInvalid,
    MemoryRequiredMatchNotFound,
    MemoryAmbiguousMatch,
    RemoteThreadFailed,
    GameLaunchFailed,
    GameLaunchTimeout,
    GameTerminationFailed,
    GameLoginFailed,
    GameLoginTimeout,
}

/// The name of a code.
pub open spec fn code_name(code: RpcErrorCode) -> Seq<char> {
    match code {
        RpcErrorCode::InvalidRequest => "InvalidRequest"@,
        RpcErrorCode::UnsupportedOperation => "UnsupportedOperation"@,
        RpcErrorCode::CapabilityRequired => "CapabilityRequired"@,
        RpcErrorCode::Timeout => "Timeout"@,
        RpcErrorCode::Internal => "Internal"@,
        RpcErrorCode::ProcessNotFound => "ProcessNotFound"@,
        RpcErrorCode::ProcessAccessDenied => "ProcessAccessDenied"@,
        RpcErrorCode::ProcessExited => "ProcessExited"@,
        RpcErrorCode::SessionNotFound => "SessionNotFound"@,
        RpcErrorCode::ClientNotFound => "ClientNotFound"@,
        RpcErrorCode::WindowOperationFailed => "WindowOperationFailed"@,
        RpcErrorCode::InputFailed => "InputFailed"@,
        RpcErrorCode::MemoryInvalidAddress => "MemoryInvalidAddress"@,
        RpcErrorCode::MemoryReadFailed => "MemoryReadFailed"@,
        RpcErrorCode::MemoryWriteFailed => "MemoryWriteFailed"@,
        RpcErrorCode::MemoryProtectionFailed => "MemoryProtectionFailed"@,
        RpcErrorCode::MemoryAllocationFailed => "MemoryAllocationFailed"@,
        RpcErrorCode::MemoryLimitExceeded => "MemoryLimitExceeded"@,
        RpcErrorCode::MemoryPatternInvalid => "MemoryPatternInvalid"@,
        RpcErrorCode::MemoryRequiredMatchNotFound => "MemoryRequiredMatchNotFound"@,
        RpcErrorCode::MemoryAmbiguousMatch => "MemoryAmbiguousMatch"@,
        RpcErrorCode::RemoteThreadFailed => "RemoteThreadFailed"@,
        RpcErrorCode::GameLaunchFailed => "GameLaunchFailed"@,
        RpcErrorCode::GameLaunchTimeout => "GameLaunchTimeout"@,
        RpcErrorCode::GameTerminationFailed => "GameTerminationFailed"@,
        RpcErrorCode::GameLoginFailed => "GameLoginFailed"@,
        RpcErrorCode::GameLoginTimeout => "GameLoginTimeout"@,
    }
}

impl RpcErrorCode {
    /// The name of the code.
    pub fn name(self) -> (name: &'static str)
        ensures
            name@ == code_name(self),
    {
        match self {
            RpcErrorCode::InvalidRequest => "InvalidRequest",
            RpcErrorCode::UnsupportedOperation => "UnsupportedOperation",
            RpcErrorCode::CapabilityRequired => "CapabilityRequired",
            RpcErrorCode::Timeout => "Timeout",
            RpcErrorCode::Internal => "Internal",
            RpcErrorCode::ProcessNotFound => "ProcessNotFound",
            RpcErrorCode::ProcessAccessDenied => "ProcessAccessDenied",
            RpcErrorCode::ProcessExited => "ProcessExited",
            RpcErrorCode::SessionNotFound => "SessionNotFound",
            RpcErrorCode::ClientNotFound => "ClientNotFound",
            RpcErrorCode::WindowOperationFailed => "WindowOperationFailed",
            RpcErrorCode::InputFailed => "InputFailed",
            RpcErrorCode::MemoryInvalidAddress => "MemoryInvalidAddress",
            RpcErrorCode::MemoryReadFailed => "MemoryReadFailed",
            RpcErrorCode::MemoryWriteFailed => "MemoryWriteFailed",
            RpcErrorCode::MemoryProtectionFailed => "MemoryProtectionFailed",
            RpcErrorCode::MemoryAllocationFailed => "MemoryAllocationFailed",
            RpcErrorCode::MemoryLimitExceeded => "MemoryLimitExceeded",
            RpcErrorCode::MemoryPatternInvalid => "MemoryPatternInvalid",
            RpcErrorCode::MemoryRequiredMatchNotFound => "MemoryRequiredMatchNotFound",
            RpcErrorCode::MemoryAmbiguousMatch => "MemoryAmbiguousMatch",
            RpcErrorCode::RemoteThreadFailed => "RemoteThreadFailed",
            RpcErrorCode::GameLaunchFailed => "GameLaunchFailed",
            RpcErrorCode::GameLaunchTimeout => "GameLaunchTimeout",
            RpcErrorCode::GameTerminationFailed => "GameTerminationFailed",
            RpcErrorCode::GameLoginFailed => "GameLoginFailed",
            RpcErrorCode::GameLoginTimeout => "GameLoginTimeout",
        }
    }
}

/// What a failure says: its class, its message and its named details.
pub ghost struct Failure {
    pub code: RpcErrorCode,
    pub message: Seq<char>,
    pub details: Map<Seq<char>, Seq<char>>,
}

/// A failure without details.
pub open spec fn failure(code: RpcErrorCode, message: Seq<char>) -> Failure {
    Failure { code, message, details: Map::empty() }
}

impl Failure {
    /// The same failure with one more detail.
    pub open spec fn with(self, name: Seq<char>, value: Seq<char>) -> Failure {
        Failure { details: self.details.insert(name, value), ..self }
    }
}

/// Named details of a failure; of two entries with one name the later counts.
#[derive(Debug)]
pub struct Details {
    entries: Vec<(String, String)>,
}

/// The details that a list of entries holds; a later entry would win.
pub open spec fn details_map(entries: Seq<(String, String)>) -> Map<Seq<char>, Seq<char>>
    decreases entries.len(),
{
    if entries.len() == 0 {
        Map::empty()
    } else {
        details_map(entries.drop_last()).insert(entries.last().0@, entries.last().1@)
    }
}

impl View for Details {
    type V = Map<Seq<char>, Seq<char>>;

    closed spec fn view(&self) -> Map<Seq<char>, Seq<char>> {
        details_map(self.entries@)
    }
}

proof fn lemma_details_skip(entries: Seq<(String, String)>, i: int, name: Seq<char>)
    requires
        0 <= i <= entries.len(),
        forall|j: int| i <= j < entries.len() ==> (#[trigger] entries[j]).0@ != name,
    ensures
        details_map(entries).dom().contains(name) == details_map(entries.take(i)).dom().contains(
            name,
        ),
        details_map(entries).dom().contains(name) ==> details_map(entries)[name] == details_map(
            entries.take(i),
        )[name],
    decreases entries.len() - i,
{
    if i < entries.len() {
        assert(entries.drop_last().take(i) =~= entries.take(i));
        lemma_details_skip(entries.drop_last(), i, name);
    } else {
        assert(entries.take(i) =~= entries);
    }
}

impl Details {
    /// No details.
    pub fn new() -> (details: Self)
        ensures
            details@ == Map::<Seq<char>, Seq<char>>::empty(),
    {
        Details { entries: Vec::new() }
    }

    /// Adds a detail, in place of an earlier one of the same name.
    pub fn insert(&mut self, name: &str, value: String)
        ensures
            final(self)@ == old(self)@.insert(name@, value@),
    {
        self.entries.push((name.to_owned(), value));
        proof {
            assert(self.entries@.drop_last() =~= old(self).entries@);
        }
    }

    /// Looks a detail up by its name.
    pub fn get(&self, name: &str) -> (value: Option<&String>)
        ensures
            value is Some <==> self@.dom().contains(name@),
            value matches Some(text) ==> text@ == self@[name@],
    {
        let mut i: usize = self.entries.len();
        while i > 0
            invariant
                i <= self.entries.len(),
                forall|j: int| i <= j < self.entries.len() ==> (#[trigger] self.entries@[j]).0@
                    != name@,
            decreases i,
        {
            if crate::text::same_text(self.entries[i - 1].0.as_str(), name) {
                proof {
                    lemma_details_skip(self.entries@, i as int, name@);
                    assert(self.entries@.take(i as int).last() == self.entries@[i - 1]);
                }
                return Some(&self.entries[i - 1].1);
            }
            i -= 1;
        }
        proof {
            lemma_details_skip(self.entries@, 0, name@);
            assert(self.entries@.take(0).len() == 0);
        }
        None
    }

    /// How many entries were recorded.
    pub fn len(&self) -> (count: usize)
        ensures
            count == self.recorded().len(),
    {
        self.entries.len()
    }

    /// The recorded entries, oldest first.
    pub closed spec fn recorded(&self) -> Seq<(Seq<char>, Seq<char>)> {
        self.entries@.map_values(|entry: (String, String)| (entry.0@, entry.1@))
    }

    /// One recorded entry.
    pub fn entry(&self, index: usize) -> (entry: (&str, &str))
        requires
            index < self.recorded().len(),
        ensures
            entry.0@ == self.recorded()[index as int].0,
            entry.1@ == self.recorded()[index as int].1,
    {
        (self.entries[index].0.as_str(), self.entries[index].1.as_str())
    }
}

/// Details in the order of their names, as a map in debug form.
pub open spec fn details_text(details: Map<Seq<char>, Seq<char>>) -> Seq<char> {
    "{"@ + joined(
        in_order(details.dom()).map_values(
            |name: Seq<char>| quoted_text(name) + ": "@ + quoted_text(details[name]),
        ),
        ", "@,
    ) + "}"@
}

/// A failure as the named fields of a value in debug form.
pub open spec fn fields_text(failure: Failure) -> Seq<char> {
    " { code: "@ + code_name(failure.code) + ", message: "@ + quoted_text(failure.message)
        + ", details: "@ + details_text(failure.details) + " }"@
}

/// Writes a failure as the named fields of a value in debug form.
pub fn describe_fields(code: RpcErrorCode, message: &str, details: &Details) -> (text: String)
    ensures
        text@ == fields_text(
            Failure { code, message: message@, details: details@ },
        ),
{
    let shown = quoted(message);
    let listed = details.describe();
    let head = join4(" { code: ", code.name(), ", message: ", shown.as_str());
    join4(head.as_str(), ", details: ", listed.as_str(), " }")
}

impl Details {
    /// The details by their names.
    pub fn sorted(&self) -> (map: TextMap<String>)
        ensures
            map.wf(),
            map@.dom() == self@.dom(),
            forall|name: Seq<char>| #[trigger] map@.dom().contains(name) ==> map@[name]@ == self@[name],
    {
        let mut map: TextMap<String> = TextMap::new();
        let mut i: usize = 0;
        proof {
            assert(self.entries@.take(0) =~= Seq::empty());
            assert(map@.dom() =~= details_map(self.entries@.take(0)).dom());
        }
        while i < self.entries.len()
            invariant
                i <= self.entries@.len(),
                map.wf(),
                map@.dom() == details_map(self.entries@.take(i as int)).dom(),
                forall|name: Seq<char>| #[trigger]
                    map@.dom().contains(name) ==> map@[name]@ == details_map(
                        self.entries@.take(i as int),
                    )[name],
            decreases self.entries@.len() - i,
        {
            proof {
                assert(self.entries@.take(i + 1).drop_last() =~= self.entries@.take(i as int));
                assert(self.entries@.take(i + 1).last() == self.entries@[i as int]);
            }
            map.put(self.entries[i].0.clone(), self.entries[i].1.clone());
            i += 1;
            proof {
                assert(map@.dom() =~= details_map(self.entries@.take(i as int)).dom());
            }
        }
        proof {
            assert(self.entries@.take(i as int) =~= self.entries@);
        }
        map
    }

    /// Writes the details in the order of their names, as a map in debug form.
    pub fn describe(&self) -> (text: String)
        ensures
            text@ == details_text(self@),
    {
        let map = self.sorted();
        let mut parts: Vec<String> = Vec::new();
        let ghost shown = |name: Seq<char>| quoted_text(name) + ": "@ + quoted_text(self@[name]);
        let mut i: usize = 0;
        proof {
            map.lemma_keys();
            assert(texts(parts@) =~= map.keys().map_values(shown).take(0));
        }
        while i < map.len()
            invariant
                i <= map.keys().len(),
                map.wf(),
                map@.dom() == self@.dom(),
                forall|name: Seq<char>| #[trigger]
                    map@.dom().contains(name) ==> map@[name]@ == self@[name],
                shown == (|name: Seq<char>|
                    quoted_text(name) + ": "@ + quoted_text(self@[name])),
                texts(parts@) == map.keys().map_values(shown).take(i as int),
            decreases map.keys().len() - i,
        {
            let name = quoted(map.key_at(i).as_str());
            let value = quoted(map.value_at(i).as_str());
            let part = join3(name.as_str(), ": ", value.as_str());
            let ghost before = parts@;
            parts.push(part);
            proof {
                assert(texts(parts@) =~= texts(before).push(part@));
                assert(map.keys().map_values(shown)[i as int] == part@);
                assert(map.keys().map_values(shown).take(i + 1) =~= map.keys().map_values(
                    shown,
                ).take(i as int).push(part@));
            }
            i += 1;
        }
        proof {
            assert(map.keys().map_values(shown).take(i as int) =~= map.keys().map_values(shown));
        }
        let listed = join_all(&parts, ", ");
        join3("{", listed.as_str(), "}")
    }
}

/// Who asked, as a native host describes itself.
#[derive(Debug)]
pub struct NativeContext {
    pub component: String,
    pub version: String,
    pub native_pid: Option<u32>,
    pub launch_id: Option<String>,
}

/// A failed request, ready to be sent back.
#[derive(Debug)]
pub struct RpcError {
    pub code: RpcErrorCode,
    pub message: String,
    pub request_id: u64,
    pub operation: String,
    pub native_context: Option<NativeContext>,
    pub details: Details,
}

impl RpcError {
    /// What the error says.
    pub open spec fn failure(&self) -> Failure {
        Failure { code: self.code, message: self.message@, details: self.details@ }
    }

    /// The error that answers one request.
    pub open spec fn answers(&self, failure: Failure, request_id: u64, operation: Seq<char>) -> bool {
        &&& self.failure() == failure
        &&& self.request_id == request_id
        &&& self.operation@ == operation
    }

    /// An error without details.
    pub fn new(
        code: RpcErrorCode,
        message: String,
        request_id: u64,
        operation: &str,
        native_context: Option<NativeContext>,
    ) -> (error: Self)
        ensures
            error.answers(failure(code, message@), request_id, operation@),
            error.native_context == native_context,
    {
        RpcError {
            code,
            message,
            request_id,
            operation: operation.to_owned(),
            native_context,
            details: Details::new(),
        }
    }
}

impl Clone for NativeContext {
    fn clone(&self) -> (copy: Self)
        ensures
            copy == *self,
    {
        NativeContext {
            component: self.component.clone(),
            version: self.version.clone(),
            native_pid: self.native_pid,
            launch_id: match &self.launch_id {
                Some(launch_id) => Some(launch_id.clone()),
                None => None,
            },
        }
    }
}

/// A request of a host, without its payload.
#[derive(Debug)]
pub struct RpcCall {
    pub request_id: u64,
    pub operation: String,
    pub native_context: Option<NativeContext>,
}

}
