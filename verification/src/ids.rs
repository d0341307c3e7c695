//! The addresses of well-known accounts and programs.
use vstd::prelude::*;
use crate::types::Pubkey;

verus! {

/// The address of the clock sysvar.
#[verifier::opaque]
pub open spec fn clock_address() -> Seq<u8> {
    seq![6u8, 167, 213, 23, 24, 199, 116, 201, 40, 86, 99, 152, 105, 29, 94, 182, 139, 94, 184, 163, 155, 75, 109, 92, 115, 85, 91, 33, 0, 0, 0, 0]
}

/// The address of the clock sysvar.
pub fn clock_id() -> (k: Pubkey)
    ensures
        k@ == clock_address(),
{
    let k = Pubkey { bytes: [6u8, 167, 213, 23, 24, 199, 116, 201, 40, 86, 99, 152, 105, 29, 94, 182, 139, 94, 184, 163, 155, 75, 109, 92, 115, 85, 91, 33, 0, 0, 0, 0] };
    proof {
        reveal(clock_address);
    }
    k
}

/// The address of the epoch schedule sysvar.
#[verifier::opaque]
pub open spec fn epoch_schedule_address() -> Seq<u8> {
    seq![6u8, 167, 213, 23, 24, 220, 63, 238, 2, 211, 228, 127, 1, 0, 248, 176, 84, 247, 148, 46, 96, 89, 30, 63, 80, 135, 25, 168, 5, 0, 0, 0]
}

/// The address of the epoch schedule sysvar.
pub fn epoch_schedule_id() -> (k: Pubkey)
    ensures
        k@ == epoch_schedule_address(),
{
    let k = Pubkey { bytes: [6u8, 167, 213, 23, 24, 220, 63, 238, 2, 211, 228, 127, 1, 0, 248, 176, 84, 247, 148, 46, 96, 89, 30, 63, 80, 135, 25, 168, 5, 0, 0, 0] };
    proof {
        reveal(epoch_schedule_address);
    }
    k
}

/// The address of the slot hashes sysvar.
#[verifier::opaque]
pub open spec fn slot_hashes_address() -> Seq<u8> {
    seq![6u8, 167, 213, 23, 25, 47, 10, 175, 198, 242, 101, 227, 251, 119, 204, 122, 218, 130, 197, 41, 208, 190, 59, 19, 110, 45, 0, 85, 32, 0, 0, 0]
}

/// The address of the slot hashes sysvar.
pub fn slot_hashes_id() -> (k: Pubkey)
    ensures
        k@ == slot_hashes_address(),
{
    let k = Pubkey { bytes: [6u8, 167, 213, 23, 25, 47, 10, 175, 198, 242, 101, 227, 251, 119, 204, 122, 218, 130, 197, 41, 208, 190, 59, 19, 110, 45, 0, 85, 32, 0, 0, 0] };
    proof {
        reveal(slot_hashes_address);
    }
    k
}

/// The address of the slot history sysvar.
#[verifier::opaque]
pub open spec fn slot_history_address() -> Seq<u8> {
    seq![6u8, 167, 213, 23, 25, 47, 10, 175, 200, 117, 226, 225, 132, 87, 124, 80, 105, 207, 200, 70, 73, 227, 235, 146, 120, 47, 149, 141, 72, 0, 0, 0]
}

/// The address of the slot history sysvar.
pub fn slot_history_id() -> (k: Pubkey)
    ensures
        k@ == slot_history_address(),
{
    let k = Pubkey { bytes: [6u8, 167, 213, 23, 25, 47, 10, 175, 200, 117, 226, 225, 132, 87, 124, 80, 105, 207, 200, 70, 73, 227, 235, 146, 120, 47, 149, 141, 72, 0, 0, 0] };
    proof {
        reveal(slot_history_address);
    }
    k
}

/// The address of the stake history sysvar.
#[verifier::opaque]
pub open spec fn stake_history_address() -> Seq<u8> {
    seq![6u8, 167, 213, 23, 25, 53, 132, 208, 254, 237, 155, 179, 67, 29, 19, 32, 107, 229, 68, 40, 27, 87, 184, 86, 108, 197, 55, 95, 244, 0, 0, 0]
}

/// The address of the stake history sysvar.
pub fn stake_history_id() -> (k: Pubkey)
    ensures
        k@ == stake_history_address(),
{
    let k = Pubkey { bytes: [6u8, 167, 213, 23, 25, 53, 132, 208, 254, 237, 155, 179, 67, 29, 19, 32, 107, 229, 68, 40, 27, 87, 184, 86, 108, 197, 55, 95, 244, 0, 0, 0] };
    proof {
        reveal(stake_history_address);
    }
    k
}

/// The address of the rent sysvar.
#[verifier::opaque]
pub open spec fn rent_address() -> Seq<u8> {
    seq![6u8, 167, 213, 23, 25, 44, 92, 81, 33, 140, 201, 76, 61, 74, 241, 127, 88, 218, 238, 8, 155, 161, 253, 68, 227, 219, 217, 138, 0, 0, 0, 0]
}

/// The address of the rent sysvar.
pub fn rent_id() -> (k: Pubkey)
    ensures
        k@ == rent_address(),
{
    let k = Pubkey { bytes: [6u8, 167, 213, 23, 25, 44, 92, 81, 33, 140, 201, 76, 61, 74, 241, 127, 88, 218, 238, 8, 155, 161, 253, 68, 227, 219, 217, 138, 0, 0, 0, 0] };
    proof {
        reveal(rent_address);
    }
    k
}

/// The address of the epoch rewards sysvar.
#[verifier::opaque]
pub open spec fn epoch_rewards_address() -> Seq<u8> {
    seq![6u8, 167, 213, 23, 24, 220, 63, 238, 2, 165, 88, 191, 131, 206, 102, 225, 68, 66, 42, 28, 52, 149, 11, 39, 193, 134, 155, 90, 156, 0, 0, 0]
}

/// The address of the epoch rewards sysvar.
pub fn epoch_rewards_id() -> (k: Pubkey)
    ensures
        k@ == epoch_rewards_address(),
{
    let k = Pubkey { bytes: [6u8, 167, 213, 23, 24, 220, 63, 238, 2, 165, 88, 191, 131, 206, 102, 225, 68, 66, 42, 28, 52, 149, 11, 39, 193, 134, 155, 90, 156, 0, 0, 0] };
    proof {
        reveal(epoch_rewards_address);
    }
    k
}

/// The address of the fees sysvar.
#[verifier::opaque]
pub open spec fn fees_address() -> Seq<u8> {
    seq![6u8, 167, 213, 23, 24, 226, 90, 141, 131, 80, 60, 37, 26, 122, 240, 113, 38, 253, 114, 0, 223, 111, 196, 237, 82, 106, 156, 144, 0, 0, 0, 0]
}

/// The address of the fees sysvar.
pub fn fees_id() -> (k: Pubkey)
    ensures
        k@ == fees_address(),
{
    let k = Pubkey { bytes: [6u8, 167, 213, 23, 24, 226, 90, 141, 131, 80, 60, 37, 26, 122, 240, 113, 38, 253, 114, 0, 223, 111, 196, 237, 82, 106, 156, 144, 0, 0, 0, 0] };
    proof {
        reveal(fees_address);
    }
    k
}

/// The address of the last restart slot sysvar.
#[verifier::opaque]
pub open spec fn last_restart_slot_address() -> Seq<u8> {
    seq![6u8, 167, 213, 23, 25, 6, 221, 225, 205, 63, 148, 125, 202, 180, 200, 244, 244, 245, 27, 173, 15, 152, 19, 184, 0, 210, 137, 71, 31, 192, 0, 0]
}

/// The address of the last restart slot sysvar.
pub fn last_restart_slot_id() -> (k: Pubkey)
    ensures
        k@ == last_restart_slot_address(),
{
    let k = Pubkey { bytes: [6u8, 167, 213, 23, 25, 6, 221, 225, 205, 63, 148, 125, 202, 180, 200, 244, 244, 245, 27, 173, 15, 152, 19, 184, 0, 210, 137, 71, 31, 192, 0, 0] };
    proof {
        reveal(last_restart_slot_address);
    }
    k
}

/// The address of the recent blockhashes sysvar.
#[verifier::opaque]
pub open spec fn recent_blockhashes_address() -> Seq<u8> {
    seq![6u8, 167, 213, 23, 25, 44, 86, 142, 224, 138, 132, 95, 115, 210, 151, 136, 207, 3, 92, 49, 69, 178, 26, 179, 68, 216, 6, 46, 169, 64, 0, 0]
}

/// The address of the recent blockhashes sysvar.
pub fn recent_blockhashes_id() -> (k: Pubkey)
    ensures
        k@ == recent_blockhashes_address(),
{
    let k = Pubkey { bytes: [6u8, 167, 213, 23, 25, 44, 86, 142, 224, 138, 132, 95, 115, 210, 151, 136, 207, 3, 92, 49, 69, 178, 26, 179, 68, 216, 6, 46, 169, 64, 0, 0] };
    proof {
        reveal(recent_blockhashes_address);
    }
    k
}

/// The address of the instructions sysvar.
#[verifier::opaque]
pub open spec fn instructions_address() -> Seq<u8> {
    seq![6u8, 167, 213, 23, 24, 123, 209, 102, 53, 218, 212, 4, 85, 253, 194, 192, 193, 36, 198, 143, 33, 86, 117, 165, 219, 186, 203, 95, 8, 0, 0, 0]
}

/// The address of the instructions sysvar.
pub fn instructions_id() -> (k: Pubkey)
    ensures
        k@ == instructions_address(),
{
    let k = Pubkey { bytes: [6u8, 167, 213, 23, 24, 123, 209, 102, 53, 218, 212, 4, 85, 253, 194, 192, 193, 36, 198, 143, 33, 86, 117, 165, 219, 186, 203, 95, 8, 0, 0, 0] };
    proof {
        reveal(instructions_address);
    }
    k
}

/// The address of the token program.
#[verifier::opaque]
pub open spec fn token_program_address() -> Seq<u8> {
    seq![6u8, 221, 246, 225, 215, 101, 161, 147, 217, 203, 225, 70, 206, 235, 121, 172, 28, 180, 133, 237, 95, 91, 55, 145, 58, 140, 245, 133, 126, 255, 0, 169]
}

/// The address of the token program.
pub fn token_program_id() -> (k: Pubkey)
    ensures
        k@ == token_program_address(),
{
    let k = Pubkey { bytes: [6u8, 221, 246, 225, 215, 101, 161, 147, 217, 203, 225, 70, 206, 235, 121, 172, 28, 180, 133, 237, 95, 91, 55, 145, 58, 140, 245, 133, 126, 255, 0, 169] };
    proof {
        reveal(token_program_address);
    }
    k
}

/// The address of the second token program.
#[verifier::opaque]
pub open spec fn token_2022_program_address() -> Seq<u8> {
    seq![6u8, 221, 246, 225, 238, 117, 143, 222, 24, 66, 93, 188, 228, 108, 205, 218, 182, 26, 252, 82, 39, 213, 239, 165, 54, 181, 117, 105, 104, 223, 181, 158]
}

/// The address of the second token program.
pub fn token_2022_program_id() -> (k: Pubkey)
    ensures
        k@ == token_2022_program_address(),
{
    let k = Pubkey { bytes: [6u8, 221, 246, 225, 238, 117, 143, 222, 24, 66, 93, 188, 228, 108, 205, 218, 182, 26, 252, 82, 39, 213, 239, 165, 54, 181, 117, 105, 104, 223, 181, 158] };
    proof {
        reveal(token_2022_program_address);
    }
    k
}

/// The loader of upgradeable programs.
#[verifier::opaque]
pub open spec fn upgradeable_loader_address() -> Seq<u8> {
    seq![2u8, 168, 246, 145, 78, 136, 161, 176, 226, 16, 21, 62, 247, 99, 174, 43, 0, 194, 185, 61, 22, 193, 36, 210, 192, 83, 122, 16, 4, 128, 0, 0]
}

/// The loader of upgradeable programs.
pub fn upgradeable_loader_id() -> (k: Pubkey)
    ensures
        k@ == upgradeable_loader_address(),
{
    let k = Pubkey { bytes: [2u8, 168, 246, 145, 78, 136, 161, 176, 226, 16, 21, 62, 247, 99, 174, 43, 0, 194, 185, 61, 22, 193, 36, 210, 192, 83, 122, 16, 4, 128, 0, 0] };
    proof {
        reveal(upgradeable_loader_address);
    }
    k
}

/// The loader of programs that hold their own code.
#[verifier::opaque]
pub open spec fn loader_v4_address() -> Seq<u8> {
    seq![5u8, 18, 180, 17, 81, 81, 227, 122, 173, 10, 139, 197, 211, 136, 46, 123, 127, 218, 76, 243, 210, 192, 40, 200, 207, 131, 54, 24, 0, 0, 0, 0]
}

/// The loader of programs that hold their own code.
pub fn loader_v4_id() -> (k: Pubkey)
    ensures
        k@ == loader_v4_address(),
{
    let k = Pubkey { bytes: [5u8, 18, 180, 17, 81, 81, 227, 122, 173, 10, 139, 197, 211, 136, 46, 123, 127, 218, 76, 243, 210, 192, 40, 200, 207, 131, 54, 24, 0, 0, 0, 0] };
    proof {
        reveal(loader_v4_address);
    }
    k
}

/// The loader of immutable programs.
#[verifier::opaque]
pub open spec fn loader_v2_address() -> Seq<u8> {
    seq![2u8, 168, 246, 145, 78, 136, 161, 110, 57, 90, 225, 40, 148, 143, 250, 105, 86, 147, 55, 104, 24, 221, 71, 67, 82, 33, 243, 198, 0, 0, 0, 0]
}

/// The loader of immutable programs.
pub fn loader_v2_id() -> (k: Pubkey)
    ensures
        k@ == loader_v2_address(),
{
    let k = Pubkey { bytes: [2u8, 168, 246, 145, 78, 136, 161, 110, 57, 90, 225, 40, 148, 143, 250, 105, 86, 147, 55, 104, 24, 221, 71, 67, 82, 33, 243, 198, 0, 0, 0, 0] };
    proof {
        reveal(loader_v2_address);
    }
    k
}

/// The first loader.
#[verifier::opaque]
pub open spec fn loader_v1_address() -> Seq<u8> {
    seq![2u8, 168, 246, 145, 78, 136, 161, 107, 189, 35, 149, 133, 95, 100, 4, 217, 180, 244, 86, 183, 130, 27, 176, 20, 87, 73, 66, 140, 0, 0, 0, 0]
}

/// The first loader.
pub fn loader_v1_id() -> (k: Pubkey)
    ensures
        k@ == loader_v1_address(),
{
    let k = Pubkey { bytes: [2u8, 168, 246, 145, 78, 136, 161, 107, 189, 35, 149, 133, 95, 100, 4, 217, 180, 244, 86, 183, 130, 27, 176, 20, 87, 73, 66, 140, 0, 0, 0, 0] };
    proof {
        reveal(loader_v1_address);
    }
    k
}

/// The loader of builtin programs.
#[verifier::opaque]
pub open spec fn native_loader_address() -> Seq<u8> {
    seq![5u8, 135, 132, 191, 20, 139, 164, 40, 47, 176, 18, 87, 72, 136, 169, 241, 83, 160, 125, 173, 247, 101, 192, 69, 92, 154, 151, 3, 128, 0, 0, 0]
}

/// The loader of builtin programs.
pub fn native_loader_id() -> (k: Pubkey)
    ensures
        k@ == native_loader_address(),
{
    let k = Pubkey { bytes: [5u8, 135, 132, 191, 20, 139, 164, 40, 47, 176, 18, 87, 72, 136, 169, 241, 83, 160, 125, 173, 247, 101, 192, 69, 92, 154, 151, 3, 128, 0, 0, 0] };
    proof {
        reveal(native_loader_address);
    }
    k
}

/// The account is a sysvar.
pub open spec fn known_sysvar(k: Pubkey) -> bool {
    k@ == clock_address() || k@ == epoch_schedule_address() || k@ == slot_hashes_address() || k@ == slot_history_address()
        || k@ == stake_history_address() || k@ == rent_address() || k@ == epoch_rewards_address() || k@ == fees_address()
        || k@ == last_restart_slot_address() || k@ == recent_blockhashes_address()
}

/// Whether the account is a sysvar.
pub fn is_known_sysvar(k: &Pubkey) -> (r: bool)
    ensures
        r == known_sysvar(*k),
{
    k.same_as(&clock_id()) || k.same_as(&epoch_schedule_id()) || k.same_as(&slot_hashes_id()) || k.same_as(
        &slot_history_id(),
    ) || k.same_as(&stake_history_id()) || k.same_as(&rent_id()) || k.same_as(&epoch_rewards_id()) || k.same_as(
        &fees_id(),
    ) || k.same_as(&last_restart_slot_id()) || k.same_as(&recent_blockhashes_id())
}

/// The account belongs to a token program.
pub open spec fn token_owned(owner: Pubkey) -> bool {
    owner@ == token_program_address() || owner@ == token_2022_program_address()
}

/// Whether the owner is a token program.
pub fn is_token_program_owner(owner: &Pubkey) -> (r: bool)
    ensures
        r == token_owned(*owner),
{
    owner.same_as(&token_program_id()) || owner.same_as(&token_2022_program_id())
}

/// The account belongs to a loader: it is a program.
pub open spec fn loader_owned(owner: Pubkey) -> bool {
    owner@ == upgradeable_loader_address() || owner@ == loader_v2_address() || owner@ == loader_v1_address() || owner@
        == native_loader_address()
}

/// Whether the owner is a program loader. A deployed program always belongs to one of them, also
/// where it arrives without its executable flag.
pub fn is_loader_owned(owner: &Pubkey) -> (r: bool)
    ensures
        r == loader_owned(*owner),
{
    owner.same_as(&upgradeable_loader_id()) || owner.same_as(&loader_v2_id()) || owner.same_as(&loader_v1_id())
        || owner.same_as(&native_loader_id())
}

} // verus!
