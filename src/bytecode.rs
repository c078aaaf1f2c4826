use vstd::prelude::*;

verus! {

/// One instruction of the virtual machine.
///
/// Stack operands index the value stack; constant operands index the
/// constant pool of the proto that holds the instruction.
#[derive(Clone, Copy, Debug, PartialEq, Eq, Structural)]
pub enum ByteCode {
    /// (destination stack slot, constant holding the global's name)
    GetGlobal(u8, u8),
    /// (constant holding the global's name, source stack slot)
    SetGlobal(u8, u8),
    /// (constant holding the global's name, constant to store)
    SetGlobalConst(u8, u8),
    /// (constant holding the global's name, constant holding the source global's name)
    SetGlobalGlobal(u8, u8),
    /// (destination stack slot, constant to load)
    LoadConst(u8, u8),
    /// (destination stack slot)
    LoadNil(u8),
    /// (destination stack slot, the boolean)
    LoadBool(u8, bool),
    /// (destination stack slot, the integer)
    LoadInt(u8, i16),
    /// (stack slot of the function, argument count)
    Call(u8, u8),
    /// (destination stack slot, source stack slot)
    Move(u8, u8),
    /// (destination stack slot, array size hint, map size hint)
    NewTable(u8, u8, u8),
    /// (stack slot of the table, stack slot of the key, stack slot of the value)
    SetTable(u8, u8, u8),
    /// (stack slot of the table, constant holding the key, stack slot of the value)
    SetField(u8, u8, u8),
    /// (stack slot of the table, number of values above it to append)
    SetList(u8, u8),
}

} // verus!
