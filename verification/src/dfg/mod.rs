//! Data Flow Graph (instruction data).

use vstd::prelude::*;

use crate::{
    entity::{EntityRef, Inst as InstEntity},
    entity_map::PrimaryMap,
    types::Type,
    value::Value,
};

pub mod inst_data;
pub mod opcode;
pub mod operand;

pub use inst_data::{BlockArgs, Immediate, InstData};
pub use opcode::Opcode;

verus! {

/// Data Flow Graph - stores instruction data
///
/// The DFG stores what instructions do (opcode + operands), separate
/// from where they appear in the layout.
#[derive(Debug, Clone)]
pub struct DFG {
    /// Instruction data
    pub insts: PrimaryMap<InstEntity, InstData>,
    /// Value types (for type checking)
    pub value_types: PrimaryMap<Value, Type>,
}

/// The type a result of an instruction with this opcode gets, given its
/// explicit type: the explicit type if there is one, else the type that the
/// opcode produces, if it determines one.
pub open spec fn infer_type(opcode: Opcode, explicit_ty: Option<Type>) -> Option<Type> {
    match explicit_ty {
        Some(t) => Some(t),
        None => match opcode {
            Opcode::Iadd | Opcode::Isub | Opcode::Imul | Opcode::Imulh | Opcode::Idiv
            | Opcode::Irem | Opcode::Iand | Opcode::Ior | Opcode::Ixor | Opcode::Inot
            | Opcode::Ishl | Opcode::Ishr | Opcode::Iashr | Opcode::Iconst | Opcode::Icmp { .. }
            | Opcode::Fcmp { .. } | Opcode::StackAlloc { .. } => Some(Type::I32),
            Opcode::Fadd | Opcode::Fsub | Opcode::Fmul | Opcode::Fdiv | Opcode::Fconst => Some(
                Type::F32,
            ),
            _ => None,
        },
    }
}

/// The value types after setting the type of value `v` to `t`: its entry
/// is replaced, or the map grows up to it with entries of type `t`.
pub open spec fn set_type(types: Seq<Type>, v: nat, t: Type) -> Seq<Type> {
    if v < types.len() {
        types.update(v as int, t)
    } else {
        types + Seq::new((v + 1 - types.len()) as nat, |i: int| t)
    }
}

/// The value types after giving each result without a type the type `t`,
/// in order.
pub open spec fn assign_result_types(types: Seq<Type>, results: Seq<Value>, t: Option<Type>) -> Seq<
    Type,
>
    decreases results.len(),
{
    if results.len() == 0 {
        types
    } else {
        let prev = assign_result_types(types, results.drop_last(), t);
        let v = results.last().0 as nat;
        match t {
            Some(ty) => if v < prev.len() {
                prev
            } else {
                set_type(prev, v, ty)
            },
            None => prev,
        }
    }
}

impl DFG {
    /// Create a new empty DFG
    pub fn new() -> (r: Self)
        ensures
            r.insts@.len() == 0,
            r.value_types@.len() == 0,
    {
        Self { insts: PrimaryMap::new(), value_types: PrimaryMap::new() }
    }

    /// Create an instruction and return its entity
    ///
    /// Results without a type get the type inferred from the opcode. The
    /// instruction is added to the DFG but not yet inserted into the layout.
    pub fn create_inst(&mut self, data: InstData) -> (r: InstEntity)
        requires
            old(self).insts@.len() <= u32::MAX,
        ensures
            r.0 == old(self).insts@.len(),
            final(self).insts@ == old(self).insts@.push(data),
            final(self).value_types@ == assign_result_types(
                old(self).value_types@,
                data.results@,
                infer_type(data.opcode, data.ty),
            ),
    {
        let ty = Self::infer_result_type(&data.opcode, &data.ty);
        let mut i: usize = 0;
        while i < data.results.len()
            invariant
                i <= data.results@.len(),
                ty == infer_type(data.opcode, data.ty),
                self.insts@ == old(self).insts@,
                self.value_types@ == assign_result_types(
                    old(self).value_types@,
                    data.results@.subrange(0, i as int),
                    ty,
                ),
            decreases data.results@.len() - i,
        {
            let result = data.results[i];
            proof {
                assert(data.results@.subrange(0, i + 1).drop_last() =~= data.results@.subrange(0, i as int));
            }
            match ty {
                Some(t) => {
                    if self.value_types.get(result).is_none() {
                        self.set_value_type(result, t);
                    }
                },
                None => {},
            }
            i = i + 1;
        }
        proof {
            assert(data.results@.subrange(0, i as int) =~= data.results@);
        }
        self.insts.push(data)
    }

    /// Get instruction data
    pub fn inst_data(&self, inst: InstEntity) -> (r: Option<&InstData>)
        ensures
            inst.0 < self.insts@.len() ==> r == Some(&self.insts@[inst.0 as int]),
            inst.0 >= self.insts@.len() ==> r is None,
    {
        self.insts.get(inst)
    }

    /// Get mutable instruction data
    pub fn inst_data_mut(&mut self, inst: InstEntity) -> (r: Option<&mut InstData>)
        ensures
            inst.0 < old(self).insts@.len() ==> (r matches Some(d) && *d == old(self).insts@[inst.0 as int]
                && final(self).insts@ == old(self).insts@.update(inst.0 as int, *final(d))),
            inst.0 >= old(self).insts@.len() ==> r is None && final(self).insts@ == old(self).insts@,
            final(self).value_types@ == old(self).value_types@,
    {
        self.insts.get_mut(inst)
    }

    /// Get instruction arguments (none for an unknown instruction)
    pub fn inst_args(&self, inst: InstEntity) -> (r: &[Value])
        ensures
            inst.0 < self.insts@.len() ==> r@ == self.insts@[inst.0 as int].args@,
            inst.0 >= self.insts@.len() ==> r@.len() == 0,
    {
        match self.insts.get(inst) {
            Some(data) => data.args.as_slice(),
            None => &[],
        }
    }

    /// Get instruction results (none for an unknown instruction)
    pub fn inst_results(&self, inst: InstEntity) -> (r: &[Value])
        ensures
            inst.0 < self.insts@.len() ==> r@ == self.insts@[inst.0 as int].results@,
            inst.0 >= self.insts@.len() ==> r@.len() == 0,
    {
        match self.insts.get(inst) {
            Some(data) => data.results.as_slice(),
            None => &[],
        }
    }

    /// Get the type of a value
    pub fn value_type(&self, value: Value) -> (r: Option<Type>)
        ensures
            value.0 < self.value_types@.len() ==> r == Some(self.value_types@[value.0 as int]),
            value.0 >= self.value_types@.len() ==> r is None,
    {
        match self.value_types.get(value) {
            Some(t) => Some(*t),
            None => None,
        }
    }

    /// Set the type of a value
    ///
    /// A value past the end of the map makes the map grow up to it; the
    /// entries in between get the same type.
    pub fn set_value_type(&mut self, value: Value, ty: Type)
        ensures
            final(self).value_types@ == set_type(old(self).value_types@, value.0 as nat, ty),
            final(self).insts@ == old(self).insts@,
    {
        let index: usize = value.0 as usize;
        if index >= self.value_types.len() {
            self.value_types.reserve(index - self.value_types.len());
            let ghost start = self.value_types@;
            while self.value_types.len() <= index
                invariant
                    start == old(self).value_types@,
                    index == value.0,
                    start.len() <= index,
                    start.len() <= self.value_types@.len() <= index + 1,
                    self.value_types@ == start + Seq::new(
                        (self.value_types@.len() - start.len()) as nat,
                        |i: int| ty,
                    ),
                    self.insts@ == old(self).insts@,
                decreases index + 1 - self.value_types@.len(),
            {
                let _ = self.value_types.push(ty);
                proof {
                    assert(self.value_types@ =~= start + Seq::new(
                        (self.value_types@.len() - start.len()) as nat,
                        |i: int| ty,
                    ));
                }
            }
        } else {
            self.value_types.set(value, ty);
        }
    }

    /// Get the next available value index: one past the largest value
    /// index in use (1 when no value has a type yet).
    pub fn next_value_index(&self) -> (r: u32)
        requires
            self.value_types@.len() <= u32::MAX,
        ensures
            r == (if self.value_types@.len() == 0 {
                1
            } else {
                self.value_types@.len()
            }),
    {
        let n = self.value_types.len();
        if n == 0 {
            1
        } else {
            let max_index = (n - 1) as u32;
            max_index + 1
        }
    }

    /// Infer the result type from an opcode
    ///
    /// Returns None if the type cannot be inferred or must be specified
    /// explicitly (e.g., Load).
    fn infer_result_type(opcode: &Opcode, explicit_ty: &Option<Type>) -> (r: Option<Type>)
        ensures
            r == infer_type(*opcode, *explicit_ty),
    {
        if let Some(ty) = explicit_ty {
            return Some(*ty);
        }
        match opcode {
            Opcode::Iadd | Opcode::Isub | Opcode::Imul | Opcode::Imulh | Opcode::Idiv
            | Opcode::Irem | Opcode::Iand | Opcode::Ior | Opcode::Ixor | Opcode::Inot
            | Opcode::Ishl | Opcode::Ishr | Opcode::Iashr | Opcode::Iconst | Opcode::Icmp { .. }
            | Opcode::Fcmp { .. } | Opcode::StackAlloc { .. } => Some(Type::I32),
            Opcode::Fadd | Opcode::Fsub | Opcode::Fmul | Opcode::Fdiv | Opcode::Fconst => Some(
                Type::F32,
            ),
            _ => None,
        }
    }
}

impl Default for DFG {
    fn default() -> (r: Self)
        ensures
            r.insts@.len() == 0,
            r.value_types@.len() == 0,
    {
        Self::new()
    }
}

} // verus!
