//! How running a program can fail.

use vstd::prelude::*;
use crate::text::{around, decimal, decimal_text, hex, hex_text, with_number};

verus! {

/// The ways in which running a program can fail.
#[derive(Clone, Copy, Debug, PartialEq, Eq, Structural)]
pub enum VmError {
    /// No instruction has this opcode.
    UnknownOpcode(u8),
    /// A back reference or a transform reaches before the start of the output.
    CpyUnderflow,
    /// A loop body extends past the end of the program.
    LoopBodyOverrun,
    /// The output would grow past its limit.
    OutputOverflow,
    /// Macro calls are nested deeper than the limit.
    CallDepthExceeded,
    /// A macro calls itself, directly or through others.
    CallCycle(u32),
    /// A macro id or a consensus key is not in its table.
    UnknownRef,
    /// A consensus snapshot does not match the hash recorded for it.
    RefHashMismatch,
    /// The consensus version that is required was not supplied.
    ConsensusUnavailable,
    /// No transform has this id, or the transform does not accept a block of
    /// the given length.
    UnknownMapTransform(u8),
    /// A field is requested outside a table scan.
    ScanNoParamStream,
    /// A field is requested after the last one.
    ScanParamExhausted,
    /// The program, or the data inside it, ends too early.
    TruncatedProgram,
}

impl VmError {
    /// The name of the error, with the value at fault.
    pub open spec fn name(self) -> Seq<char> {
        match self {
            VmError::UnknownOpcode(n) => "UnknownOpcode("@ + decimal(n as nat) + ")"@,
            VmError::CpyUnderflow => "CpyUnderflow"@,
            VmError::LoopBodyOverrun => "LoopBodyOverrun"@,
            VmError::OutputOverflow => "OutputOverflow"@,
            VmError::CallDepthExceeded => "CallDepthExceeded"@,
            VmError::CallCycle(n) => "CallCycle("@ + decimal(n as nat) + ")"@,
            VmError::UnknownRef => "UnknownRef"@,
            VmError::RefHashMismatch => "RefHashMismatch"@,
            VmError::ConsensusUnavailable => "ConsensusUnavailable"@,
            VmError::UnknownMapTransform(n) => "UnknownMapTransform("@ + decimal(n as nat) + ")"@,
            VmError::ScanNoParamStream => "ScanNoParamStream"@,
            VmError::ScanParamExhausted => "ScanParamExhausted"@,
            VmError::TruncatedProgram => "TruncatedProgram"@,
        }
    }

    /// Returns the name of the error, with the value at fault.
    fn name_text(&self) -> (text: String)
        ensures
            text@ == self.name(),
    {
        match self {
            VmError::UnknownOpcode(n) => around("UnknownOpcode(", decimal_text(*n as u64), ")"),
            VmError::CpyUnderflow => "CpyUnderflow".to_owned(),
            VmError::LoopBodyOverrun => "LoopBodyOverrun".to_owned(),
            VmError::OutputOverflow => "OutputOverflow".to_owned(),
            VmError::CallDepthExceeded => "CallDepthExceeded".to_owned(),
            VmError::CallCycle(n) => around("CallCycle(", decimal_text(*n as u64), ")"),
            VmError::UnknownRef => "UnknownRef".to_owned(),
            VmError::RefHashMismatch => "RefHashMismatch".to_owned(),
            VmError::ConsensusUnavailable => "ConsensusUnavailable".to_owned(),
            VmError::UnknownMapTransform(n) => around(
                "UnknownMapTransform(",
                decimal_text(*n as u64),
                ")",
            ),
            VmError::ScanNoParamStream => "ScanNoParamStream".to_owned(),
            VmError::ScanParamExhausted => "ScanParamExhausted".to_owned(),
            VmError::TruncatedProgram => "TruncatedProgram".to_owned(),
        }
    }

    /// Returns what went wrong, in words: the number and the name of the error.
    pub fn describe(&self) -> (text: String)
        ensures
            text@ == "VmError(0x"@ + hex(self.code_of()) + "): "@ + self.name(),
    {
        let number: String = around("VmError(0x", hex_text(self.code()), "): ");
        with_number(number.as_str(), self.name_text())
    }

    /// The number under which the error is reported.
    pub open spec fn code_of(self) -> u8 {
        match self {
            VmError::UnknownOpcode(_) => 0x01,
            VmError::CpyUnderflow => 0x02,
            VmError::LoopBodyOverrun => 0x03,
            VmError::OutputOverflow => 0x04,
            VmError::CallDepthExceeded => 0x05,
            VmError::CallCycle(_) => 0x06,
            VmError::UnknownRef => 0x07,
            VmError::RefHashMismatch => 0x08,
            VmError::ConsensusUnavailable => 0x09,
            VmError::UnknownMapTransform(_) => 0x0A,
            VmError::ScanNoParamStream => 0x0B,
            VmError::ScanParamExhausted => 0x0C,
            VmError::TruncatedProgram => 0xFF,
        }
    }

    /// Returns the number under which the error is reported.
    pub fn code(&self) -> (code: u8)
        ensures
            code == self.code_of(),
    {
        match self {
            VmError::UnknownOpcode(_) => 0x01,
            VmError::CpyUnderflow => 0x02,
            VmError::LoopBodyOverrun => 0x03,
            VmError::OutputOverflow => 0x04,
            VmError::CallDepthExceeded => 0x05,
            VmError::CallCycle(_) => 0x06,
            VmError::UnknownRef => 0x07,
            VmError::RefHashMismatch => 0x08,
            VmError::ConsensusUnavailable => 0x09,
            VmError::UnknownMapTransform(_) => 0x0A,
            VmError::ScanNoParamStream => 0x0B,
            VmError::ScanParamExhausted => 0x0C,
            VmError::TruncatedProgram => 0xFF,
        }
    }
}

/// Two errors have the same number exactly when they are of the same kind.
pub proof fn error_codes_tell_kinds_apart(a: VmError, b: VmError)
    ensures
        a.code_of() == b.code_of() <==> match (a, b) {
            (VmError::UnknownOpcode(_), VmError::UnknownOpcode(_)) => true,
            (VmError::CallCycle(_), VmError::CallCycle(_)) => true,
            (VmError::UnknownMapTransform(_), VmError::UnknownMapTransform(_)) => true,
            _ => a == b,
        },
{
}

} // verus!
