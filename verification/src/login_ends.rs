//! What a login asks the game for, how its end is told, and what is left of it.

use vstd::prelude::*;

use crate::calls::{Answer, Call, Calls, Fault, Wish};
use crate::game_login::{
    command_bytes, given_back, has_control, holds_back, inside, is_control, login_command,
    patched_back, watched, CredentialSecret, Piece, Trace,
};
use crate::protocol::MemoryProtection;
use crate::rpc::Failure;

verus! {

/// The command for an account is the word for a login, the name and the password, with a
/// space behind each of the first two, and a closing zero. There is one exactly if no byte
/// of the account is a control character.
pub proof fn commands_spell_the_account(credential: CredentialSecret)
    requires
        8 + credential.name().len() + credential.secret().len() <= usize::MAX,
    ensures
        login_command(credential) is Ok <==> {
            &&& forall|i: int|
                0 <= i < credential.name().len() ==> 0x20 <= #[trigger] credential.name()[i]
                    && credential.name()[i] != 0x7f
            &&& forall|i: int|
                0 <= i < credential.secret().len() ==> 0x20 <= #[trigger] credential.secret()[i]
                    && credential.secret()[i] != 0x7f
        },
        login_command(credential) matches Ok(command) ==> {
            let name = credential.name();
            let secret = credential.secret();
            let second = 6 + name.len() as int;
            &&& command.len() == second + 1 + secret.len() + 1
            &&& forall|i: int|
                0 <= i < 6 ==> #[trigger] command[i] as int == "login "@[i] as int
            &&& command.subrange(6, second) == name
            &&& command[second] == 0x20
            &&& command.subrange(second + 1, command.len() - 1) == secret
            &&& command.last() == 0
        },
{
    reveal_strlit("login ");
    let name = credential.name();
    let secret = credential.secret();
    assert forall|bytes: Seq<u8>| #[trigger] has_control(bytes) == !(forall|i: int|
        0 <= i < bytes.len() ==> 0x20 <= #[trigger] bytes[i] && bytes[i] != 0x7f) by {
        if forall|i: int| 0 <= i < bytes.len() ==> 0x20 <= #[trigger] bytes[i] && bytes[i] != 0x7f {
            assert(!has_control(bytes));
        } else {
            let i = choose|i: int|
                0 <= i < bytes.len() && !(0x20 <= #[trigger] bytes[i] && bytes[i] != 0x7f);
            assert(is_control(bytes[i]));
        }
    }
    let command = command_bytes(name, secret);
    assert(command.subrange(6, 6int + name.len()) =~= name);
    assert(command.subrange(7int + name.len(), command.len() - 1) =~= secret);
}

/// A hook site gets its bytes back, and the protection that it had.
pub proof fn sites_of_logins_are_given_back(
    calls: Calls,
    k: int,
    trace: Trace,
    protection: MemoryProtection,
)
    requires
        trace.protection == Some(protection),
        trace.original.len() <= usize::MAX,
        calls[k].wish == (Wish::Protect {
            at: trace.hook,
            size: trace.original.len() as usize,
            protection: MemoryProtection::ExecuteReadWrite,
        }),
        calls[k].answer is Earlier,
        calls[k + 1] == (Call {
            wish: Wish::Write { at: trace.hook, bytes: trace.original },
            answer: Answer::Done,
        }),
        calls[k + 2] == (Call {
            wish: Wish::Flush { at: trace.hook, size: trace.original.len() as usize },
            answer: Answer::Done,
        }),
        calls[k + 3].wish == (Wish::Protect {
            at: trace.hook,
            size: trace.original.len() as usize,
            protection,
        }),
        calls[k + 3].answer is Earlier,
    ensures
        patched_back(calls, k, trace) == (k + 4, true),
{
}

/// Memory that held a secret is overwritten with zeros before it is released, and any
/// other is released at once. Nothing is left of it.
pub proof fn memory_of_logins_is_cleared_and_released(
    calls: Calls,
    k: int,
    list: Seq<Piece>,
    n: int,
    next: int,
    kept: Seq<Piece>,
    failures: Seq<Seq<char>>,
    zeros: Seq<u8>,
)
    requires
        0 < n <= list.len(),
        given_back(calls, k, list, n - 1) == (next, kept, failures),
        zeros.len() == list[n - 1].size,
        forall|i: int| 0 <= i < zeros.len() ==> #[trigger] zeros[i] == 0,
        list[n - 1].sensitive ==> calls[next] == (Call {
            wish: Wish::Write { at: list[n - 1].at, bytes: zeros },
            answer: Answer::Done,
        }),
        calls[if list[n - 1].sensitive {
            next + 1
        } else {
            next
        }] == (Call { wish: Wish::Free { at: list[n - 1].at }, answer: Answer::Done }),
    ensures
        given_back(calls, k, list, n) == (
            if list[n - 1].sensitive {
                next + 2
            } else {
                next + 1
            },
            kept,
            failures,
        ),
{
    assert(zeros =~= Seq::new(list[n - 1].size as nat, |i: int| 0u8));
}

/// The code of a login stays while a thread stands in it or in the place that it hooks,
/// and while its flag says that the game has not come back. It may go when the flag says
/// that it was never called or is done.
pub proof fn code_of_logins_stays_while_it_runs(
    calls: Calls,
    k: int,
    trace: Trace,
    pointers: Seq<usize>,
    code: usize,
    size: usize,
    flag: usize,
    state: u8,
    i: int,
)
    requires
        trace.hook + trace.original.len() <= usize::MAX,
        code + size <= usize::MAX,
        trace.code == Some((code, size)),
        trace.flag == Some(flag),
        calls[k] == (Call {
            wish: Wish::Read { at: flag, size: 1 },
            answer: Answer::Bytes { bytes: seq![state] },
        }),
    ensures
        0 <= i < pointers.len() && (trace.hook <= pointers[i] < trace.hook + trace.original.len()
            || code <= pointers[i] < code + size) ==> holds_back(calls, k, trace, pointers).1
            is Some,
        state >= 2 ==> holds_back(calls, k, trace, pointers).1 is Some,
        state < 2 && (forall|j: int|
            0 <= j < pointers.len() ==> !(trace.hook <= #[trigger] pointers[j] < trace.hook
                + trace.original.len()) && !(code <= pointers[j] < code + size)) ==> holds_back(
            calls,
            k,
            trace,
            pointers,
        ) == (k + 1, None::<Seq<char>>),
{
    assert(seq![state][0] == state);
    if 0 <= i < pointers.len() && trace.hook <= pointers[i] < trace.hook + trace.original.len() {
        assert(inside(pointers, trace.hook, trace.original.len() as usize));
    }
    if 0 <= i < pointers.len() && code <= pointers[i] < code + size {
        assert(inside(pointers, code, size));
    }
}

/// A login is done when its flag is clear, even at its deadline. Until then it is waited
/// for, but no longer than that.
pub proof fn logins_are_done_when_their_flag_is_clear(state: u8, timeout_ms: u32, expired: bool)
    ensures
        ({
            let seen = watched(Ok::<Seq<u8>, Fault>(seq![state]), timeout_ms, expired);
            &&& state == 0 ==> seen == Ok::<bool, Failure>(true)
            &&& state != 0 && !expired ==> seen == Ok::<bool, Failure>(false)
            &&& state != 0 && expired ==> seen is Err
        }),
{
    assert(seq![state][0] == state);
}

}
