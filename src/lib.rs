//! A codec for the `Code` attribute of Java class-file methods: constant
//! pools, instructions with labelled jumps, the two-pass assembler that
//! chooses jump widths, the disassembler that mints labels, and stack-map
//! frames. Also the source spans and tokens of a small front end.
pub mod bytes;
pub mod cp;
pub mod layout;
pub mod insn;
pub mod jump;
pub mod code;
pub mod disasm;
pub mod frame;
pub mod mutf8;
pub mod lex;

pub use bytes::{ByteReader, Error};
pub use code::{Assembled, Catch, Code, CodeAttribute, LocalVariable};
pub use cp::{BootstrapMethod, EntryModel, MapCp, RawConstantEntry, VecCp};
pub use disasm::Labeler;
pub use frame::{RawFrame, VerificationType};
pub use insn::{Instruction, JumpCondition, Label};
pub use lex::{ErrorKind, ErrorReported, Ident, Span, Token, TokenKind};
pub use mutf8::StrRef;
