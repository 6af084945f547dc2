//! Trampoline code generation: architecture-specific branch instructions for
//! redirecting execution into injected code.

use vstd::prelude::*;

use crate::elf::MachineType;
use crate::ext::le_bytes;

verus! {

/// Byte length of the fixed trampoline slot. A fixed-width slot lets a
/// trampoline overwrite a known-size prologue region without disturbing the
/// alignment of subsequent instructions.
pub const TRAMPOLINE_SLOT_LEN: usize = 16;

/// The AMD64 near-relative-jump displacement for reaching `offset`: the jump
/// is measured from the address of the next instruction, which lies 5 bytes
/// (opcode plus operand) past the jump's own address, so the encoded value is
/// `offset - 5`, wrapped as a 32-bit two's-complement value.
pub open spec fn spec_displacement(offset: u32) -> nat {
    if offset >= 5 {
        (offset - 5) as nat
    } else {
        (offset + 0x100000000 - 5) as nat
    }
}

/// The bytes of a trampoline slot: for AMD64, a near relative jump (`0xE9`
/// plus the little-endian 32-bit displacement) padded with no-op bytes
/// (`0x90`); for an unknown machine, an inert all-zero slot.
pub open spec fn spec_trampoline(machine: MachineType, offset: u32) -> Seq<u8> {
    match machine {
        MachineType::Unknown => Seq::new(16, |i: int| 0u8),
        MachineType::Amd64 => seq![0xE9u8] + le_bytes(spec_displacement(offset), 4) + Seq::new(
            11,
            |i: int| 0x90u8,
        ),
    }
}

/// Emits the 16-byte trampoline slot that redirects execution by `offset`
/// bytes on the given machine. An unknown machine gets an inert all-zero
/// slot: an explicit "unsupported, do nothing" outcome, not a silent success.
pub fn get_instructions(machine: MachineType, offset: u32) -> (result: [u8; 16])
    ensures
        result@ == spec_trampoline(machine, offset),
        result@.len() == TRAMPOLINE_SLOT_LEN,
{
    match machine {
        MachineType::Unknown => {
            let result = [0u8; 16];
            proof {
                assert(result@ =~= spec_trampoline(machine, offset));
            }
            result
        },
        MachineType::Amd64 => {
            let disp: u32 = if offset >= 5 {
                offset - 5
            } else {
                offset + 0xFFFFFFFB
            };
            let b = crate::ext::word_to_vec(disp as u64, 4, crate::elf::Endian::Little);
            proof {
                crate::ext::lemma_word_bytes_len(disp as nat, 4, crate::elf::Endian::Little);
            }
            let result = [
                0xE9u8,
                b[0],
                b[1],
                b[2],
                b[3],
                0x90u8,
                0x90u8,
                0x90u8,
                0x90u8,
                0x90u8,
                0x90u8,
                0x90u8,
                0x90u8,
                0x90u8,
                0x90u8,
                0x90u8,
            ];
            proof {
                crate::ext::lemma_word_bytes_len(disp as nat, 4, crate::elf::Endian::Little);
                assert(disp == spec_displacement(offset));
                assert(result@ =~= spec_trampoline(machine, offset));
            }
            result
        },
    }
}

} // verus!
