//! How a hook leads away from the code of the game and comes back to it.

use vstd::prelude::*;

use crate::backend::MutationBackend;
use crate::codec::{signed32, spelled_le, spelled_numbers_are_values, wrap32};
use crate::core_hook::{base_place, reads_base};
use crate::game_login::{relative_jump, relative_jumps_lead_to_their_destination};
use crate::hook::{
    all_patches, detour, detour_leads_to_its_destination, divert_script, feature_code,
    prepare_script, trampoline, trampoline_continues_after_the_target, HookApiError, HookPlan,
    Hooks, Placement, Site,
};
use crate::machine::number;
use crate::payload::payload;
use crate::process::Sessions;
use crate::protocol::{CoreHook, CoreHookBaseResponse, MemoryProtection};
use crate::steps::{Op, Reply, Step};
use crate::text::address_text;

verus! {

/// An absolute jump: through the eight bytes behind it.
pub open spec fn jumps_to(bytes: Seq<u8>, destination: int) -> bool {
    &&& bytes.len() >= 14
    &&& bytes[0] == 0xff
    &&& bytes[1] == 0x25
    &&& number(bytes, 2, 4) == 0
    &&& number(bytes, 6, 8) == destination
}

proof fn lemma_jumps_to(bytes: Seq<u8>, destination: int)
    requires
        bytes.len() >= 14,
        bytes.take(6) == seq![0xffu8, 0x25, 0, 0, 0, 0],
        number(bytes, 6, 8) == destination,
    ensures
        jumps_to(bytes, destination),
{
    let head = bytes.take(6);
    assert(bytes[0] == head[0]);
    assert(bytes[1] == head[1]);
    let zero = bytes.subrange(2, 6);
    assert(zero =~= head.subrange(2, 6));
    assert(zero =~= seq![0u8, 0, 0, 0]);
    crate::codec::four_bytes_count(zero);
}

/// Putting a hook in place writes into its allocation the payload, the instructions of the
/// target and a jump to what is behind them, and over the target a jump to the allocation.
pub proof fn hooks_lead_away_and_come_back(
    plan: HookPlan,
    site: Site,
    at: usize,
    previous: MemoryProtection,
)
    requires
        14 <= site.original.len(),
        site.target + site.original.len() <= usize::MAX,
    ensures
        prepare_script(plan, site, at)[0] matches Op::Write { address, bytes } && {
            let behind = (plan.payload.len() + site.original.len()) as int;
            &&& address == address_text(at as nat)
            &&& bytes.len() == behind + 14
            &&& bytes.take(plan.payload.len() as int) == plan.payload
            &&& bytes.subrange(plan.payload.len() as int, behind) == site.original
            &&& jumps_to(bytes.skip(behind), site.target + site.original.len())
        },
        divert_script(site, at, previous)[0] matches Op::Write { address, bytes } && {
            &&& address == address_text(site.target as nat)
            &&& bytes.len() == site.original.len()
            &&& jumps_to(bytes, at as int)
            &&& forall|i: int| 14 <= i < bytes.len() ==> #[trigger] bytes[i] == 0x90
        },
{
    let next = (site.target + site.original.len()) as usize;
    let behind = (plan.payload.len() + site.original.len()) as int;
    trampoline_continues_after_the_target(plan.payload, site.original, next);
    let code = trampoline(plan.payload, site.original, next);
    let back = code.skip(behind);
    assert(back.take(6) =~= code.subrange(behind, behind + 6));
    assert(back.subrange(6, 14) =~= code.subrange(behind + 6, behind + 14));
    lemma_jumps_to(back, next as int);
    detour_leads_to_its_destination(at, site.original.len() as int);
    lemma_jumps_to(detour(at, site.original.len() as int), at as int);
}

/// The code of a feature comes back behind what it overwrites, with the instructions of
/// the target before that where they are to run, and the last thing that is changed is the
/// target, which leads to the code.
pub proof fn features_lead_away_and_come_back(p: Placement, original: Seq<u8>, at: usize)
    requires
        5 <= p.overwrite,
        original.len() == p.overwrite,
        p.target + p.overwrite <= usize::MAX,
        relative_jump(p.target, at, p.overwrite as nat) is Ok,
    ensures
        ({
            let code = feature_code(p, original, at);
            let own = payload(p.kind, at).len() as int;
            let behind = if p.replay {
                own + original.len()
            } else {
                own
            };
            &&& code.len() == behind + 14
            &&& code.take(own) == payload(p.kind, at)
            &&& p.replay ==> code.subrange(own, behind) == original
            &&& jumps_to(code.skip(behind), p.target + p.overwrite)
        }),
        ({
            let all = all_patches(p, original, at);
            let last = all[p.patches.len() as int];
            &&& all.len() == p.patches.len() + 1
            &&& forall|i: int| 0 <= i < p.patches.len() ==> #[trigger] all[i] == p.patches[i]
            &&& last.address == p.target
            &&& last.expected == original
            &&& last.applied
            &&& !last.writable
            &&& last.replacement.len() == original.len()
            &&& last.replacement[0] == 0xe9
            &&& p.target + 5 + signed32(number(last.replacement, 1, 4)) == at
        }),
{
    let next = (p.target + p.overwrite) as usize;
    let own = payload(p.kind, at);
    let again = if p.replay {
        original
    } else {
        Seq::empty()
    };
    let behind = (own.len() + again.len()) as int;
    trampoline_continues_after_the_target(own, again, next);
    let code = trampoline(own, again, next);
    let back = code.skip(behind);
    assert(back.take(6) =~= code.subrange(behind, behind + 6));
    assert(back.subrange(6, 14) =~= code.subrange(behind + 6, behind + 14));
    lemma_jumps_to(back, next as int);
    relative_jumps_lead_to_their_destination(p.target, at, p.overwrite as nat);
}

/// A captured address is told as the number that the bytes of the slot spell, least
/// significant first.
pub proof fn captured_addresses_are_told<B: MutationBackend>(
    backend: &B,
    id: Seq<char>,
    hook: CoreHook,
    hooks: Hooks,
    before: Sessions<B::Handle>,
    step: Step<B::Handle, B::ThreadHandle>,
    after: Sessions<B::Handle>,
    answer: Result<CoreHookBaseResponse, HookApiError>,
    bytes: Seq<u8>,
    value: nat,
)
    requires
        reads_base(backend, id, hook, hooks, before, step, after, answer),
        base_place(hooks, id, hook) is Ok,
        step.reply == (Reply::Bytes { bytes }),
        bytes.len() == 8,
        spelled_le(bytes, value),
    ensures
        answer matches Ok(response) && response.base_address@ == address_text(value),
        step.op == (Op::Read {
            address: address_text(base_place(hooks, id, hook)->Ok_0 as nat),
            size: 8,
        }),
{
    spelled_numbers_are_values(bytes, value);
}

/// A signed number and its bits differ by a multiple of what the bits can count to.
pub proof fn signed_numbers_keep_their_bits(value: i32, bits: u32)
    ensures
        signed32(wrap32(value as int)) == value,
        wrap32(signed32(bits as nat)) == bits,
        value >= 0 ==> wrap32(value as int) == value,
        value < 0 ==> wrap32(value as int) == value + 0x1_0000_0000,
{
}

}
