//! The executor: a fetch-decode-execute loop over the operand stack.
//!
//! `spec_run` is the machine's definition: a recursive function from
//! bytecode, program counter and stack to the terminal state, either a
//! final stack or an error. `EVM::execute` is proved to land exactly on
//! `spec_run`'s verdict for its bytecode.
use crate::arith::{addmod_w, exp_w, mulmod_w};
use crate::codec::{decode_hex, hex_decode, strip_marker, valid_hex};
use crate::opcode::{arity, is_push, lookup_opcode, opcode_of, push_width, Opcode};
use crate::ops::{
    be_val, op_add, op_addmod, op_and, op_byte, op_div, op_eq, op_exp, op_gt, op_iszero,
    op_lt, op_mod, op_mul, op_mulmod, op_not, op_or, op_sar, op_sdiv, op_sgt, op_shl,
    op_shr, op_signextend, op_slt, op_smod, op_sub, op_xor,
};
use crate::word::{
    and_w, byte_w, eq_w, from_be_slice, i256_div, i256_lt, i256_rem, is_zero_w, not_w,
    or_w, sar_w, shl_w, shr_w, signextend_w, u256_add, u256_div, u256_lt, u256_mul,
    u256_rem, u256_sub, word_from_u64, xor_w, Word,
};
use vstd::prelude::*;
use vstd::string::StringSliceAdditionalSpecFns;

verus! {

/// Everything a run can fail with, constructing or executing.
#[derive(Clone, Copy, Debug, PartialEq, Eq, Structural)]
pub enum EvmError {
    /// Malformed program text: a bad digit or an odd digit count.
    InvalidEncoding,
    /// The byte at `pc` has no opcode table entry.
    UnknownOpcode { byte: u8, pc: usize },
    /// The opcode at `pc` pops `required` operands; only `available` exist.
    StackUnderflow { required: usize, available: usize, pc: usize },
    /// The push at `pc` asks for immediate bytes past the program's end.
    TruncatedImmediate { opcode: Opcode, pc: usize },
}

/// The terminal state of a run: the stack it halted with, or its error.
pub enum RunOutcome {
    Halted(Seq<nat>),
    Failed(EvmError),
}

/// The word a 1-operand opcode pushes for popped operand `a`.
pub open spec fn apply1(op: Opcode, a: nat) -> nat {
    match op {
        Opcode::ISZERO => op_iszero(a),
        Opcode::NOT => op_not(a),
        _ => 0,
    }
}

/// The word a 2-operand opcode pushes; `a` popped first, then `b`.
pub open spec fn apply2(op: Opcode, a: nat, b: nat) -> nat {
    match op {
        Opcode::ADD => op_add(a, b),
        Opcode::MUL => op_mul(a, b),
        Opcode::SUB => op_sub(a, b),
        Opcode::DIV => op_div(a, b),
        Opcode::SDIV => op_sdiv(a, b),
        Opcode::MOD => op_mod(a, b),
        Opcode::SMOD => op_smod(a, b),
        Opcode::EXP => op_exp(a, b),
        Opcode::SIGNEXTEND => op_signextend(a, b),
        Opcode::LT => op_lt(a, b),
        Opcode::GT => op_gt(a, b),
        Opcode::SLT => op_slt(a, b),
        Opcode::SGT => op_sgt(a, b),
        Opcode::EQ => op_eq(a, b),
        Opcode::AND => op_and(a, b),
        Opcode::OR => op_or(a, b),
        Opcode::XOR => op_xor(a, b),
        Opcode::BYTE => op_byte(a, b),
        Opcode::SHL => op_shl(a, b),
        Opcode::SHR => op_shr(a, b),
        Opcode::SAR => op_sar(a, b),
        _ => 0,
    }
}

/// The word a 3-operand opcode pushes; popped in the order `a`, `b`, `n`.
pub open spec fn apply3(op: Opcode, a: nat, b: nat, n: nat) -> nat {
    match op {
        Opcode::ADDMOD => op_addmod(a, b, n),
        Opcode::MULMOD => op_mulmod(a, b, n),
        _ => 0,
    }
}

/// The machine, run from `pc` over `code` with stack `stack` (top last) to
/// its terminal state. Each step fetches the byte at `pc`, looks it up,
/// checks arity or immediate bounds, applies the opcode and advances; the
/// counter strictly grows, so every run ends.
pub open spec fn spec_run(code: Seq<u8>, pc: nat, stack: Seq<nat>) -> RunOutcome
    decreases code.len() - pc,
{
    if pc >= code.len() {
        RunOutcome::Halted(stack)
    } else {
        let b = code[pc as int];
        match opcode_of(b) {
            Option::None => RunOutcome::Failed(
                EvmError::UnknownOpcode { byte: b, pc: pc as usize },
            ),
            Option::Some(op) => {
                if op == Opcode::STOP {
                    RunOutcome::Halted(stack)
                } else if is_push(op) {
                    let w = push_width(op);
                    if pc + 1 + w > code.len() {
                        RunOutcome::Failed(
                            EvmError::TruncatedImmediate { opcode: op, pc: pc as usize },
                        )
                    } else {
                        let imm = be_val(
                            code.subrange(pc + 1 as int, pc + 1 + w as int),
                        );
                        spec_run(code, pc + 1 + w, stack.push(imm))
                    }
                } else {
                    let k = arity(op);
                    if stack.len() < k {
                        RunOutcome::Failed(
                            EvmError::StackUnderflow {
                                required: k as usize,
                                available: stack.len() as usize,
                                pc: pc as usize,
                            },
                        )
                    } else {
                        let l = stack.len() as int;
                        let stack2 = if k == 1 {
                            stack.take(l - 1).push(apply1(op, stack[l - 1]))
                        } else if k == 2 {
                            stack.take(l - 2).push(apply2(op, stack[l - 1], stack[l - 2]))
                        } else {
                            stack.take(l - 3).push(
                                apply3(op, stack[l - 1], stack[l - 2], stack[l - 3]),
                            )
                        };
                        spec_run(code, pc + 1, stack2)
                    }
                }
            },
        }
    }
}

/// The interpreter: one program's bytecode, counter and operand stack.
///
/// Two policy choices, on purpose: the operand stack has no fixed capacity
/// bound, and a push whose immediate runs past the program's end fails with
/// `TruncatedImmediate` rather than zero-padding the missing bytes.
pub struct EVM {
    stack: Vec<Word>,
    pc: usize,
    bytecode: Vec<u8>,
}

impl EVM {
    /// Every stack entry is a well-formed word.
    pub closed spec fn wf(&self) -> bool {
        forall|i: int| 0 <= i < self.stack@.len() ==> (#[trigger] self.stack@[i]).wf()
    }

    /// The stack's values, bottom first, top of stack last.
    pub closed spec fn stack_vals(&self) -> Seq<nat> {
        self.stack@.map_values(|w: Word| w@)
    }

    /// The program bytes.
    pub closed spec fn code_spec(&self) -> Seq<u8> {
        self.bytecode@
    }

    /// The program counter.
    pub closed spec fn pc_spec(&self) -> nat {
        self.pc as nat
    }

    /// Build an interpreter over the decoded program text, with an empty
    /// stack and the counter at 0; reject malformed text, and only that.
    pub fn new(hex_input: &str) -> (r: Result<EVM, EvmError>)
        ensures
            match r {
                Ok(evm) => valid_hex(strip_marker(hex_input.spec_bytes())) && evm.wf()
                    && evm.code_spec() == hex_decode(strip_marker(hex_input.spec_bytes()))
                    && evm.pc_spec() == 0 && evm.stack_vals().len() == 0,
                Err(e) => e == EvmError::InvalidEncoding && !valid_hex(
                    strip_marker(hex_input.spec_bytes()),
                ),
            },
    {
        match decode_hex(hex_input) {
            Some(bs) => Ok(EVM { stack: Vec::new(), pc: 0, bytecode: bs }),
            None => Err(EvmError::InvalidEncoding),
        }
    }

    /// The operand stack, bottom first, top of stack last.
    pub fn get_stack(&self) -> (r: &Vec<Word>)
        ensures
            r@.map_values(|w: Word| w@) == self.stack_vals(),
    {
        &self.stack
    }

    /// One push opcode: check the immediate fits, read it big-endian,
    /// zero-extend and push, and advance past it.
    fn step_push(&mut self, op: Opcode, n: usize) -> (r: Result<(), EvmError>)
        requires
            old(self).wf(),
            1 <= n <= 32,
            (old(self).pc as nat) < old(self).bytecode@.len(),
            opcode_of(old(self).bytecode@[old(self).pc as int]) == Some(op),
            is_push(op),
            push_width(op) == n as nat,
        ensures
            final(self).wf(),
            final(self).bytecode@ == old(self).bytecode@,
            match r {
                Ok(()) => old(self).pc < final(self).pc
                    && final(self).pc <= final(self).bytecode@.len()
                    && spec_run(
                    final(self).bytecode@,
                    final(self).pc as nat,
                    final(self).stack_vals(),
                ) == spec_run(
                    old(self).bytecode@,
                    old(self).pc as nat,
                    old(self).stack_vals(),
                ),
                Err(e) => spec_run(
                    old(self).bytecode@,
                    old(self).pc as nat,
                    old(self).stack_vals(),
                ) == RunOutcome::Failed(e),
            },
    {
        let pc = self.pc;
        let len = self.bytecode.len();
        if n > len - (pc + 1) {
            let e = EvmError::TruncatedImmediate { opcode: op, pc };
            return Err(e);
        }
        let w = from_be_slice(&self.bytecode, pc + 1, n);
        self.stack.push(w);
        self.pc = pc + 1 + n;
        proof {
            assert(self.stack_vals() =~= old(self).stack_vals().push(w@));
        }
        Ok(())
    }

    /// One 1-operand opcode: check depth, pop, compute, push, step on.
    fn step_unary(&mut self, op: Opcode) -> (r: Result<(), EvmError>)
        requires
            old(self).wf(),
            (old(self).pc as nat) < old(self).bytecode@.len(),
            opcode_of(old(self).bytecode@[old(self).pc as int]) == Some(op),
            arity(op) == 1,
        ensures
            final(self).wf(),
            final(self).bytecode@ == old(self).bytecode@,
            match r {
                Ok(()) => old(self).pc < final(self).pc
                    && final(self).pc <= final(self).bytecode@.len()
                    && spec_run(
                    final(self).bytecode@,
                    final(self).pc as nat,
                    final(self).stack_vals(),
                ) == spec_run(
                    old(self).bytecode@,
                    old(self).pc as nat,
                    old(self).stack_vals(),
                ),
                Err(e) => spec_run(
                    old(self).bytecode@,
                    old(self).pc as nat,
                    old(self).stack_vals(),
                ) == RunOutcome::Failed(e),
            },
    {
        if self.stack.len() < 1 {
            let e = EvmError::StackUnderflow {
                required: 1,
                available: self.stack.len(),
                pc: self.pc,
            };
            return Err(e);
        }
        let ghost l = old(self).stack_vals().len() as int;
        let a = self.stack.pop().unwrap();
        proof {
            assert(old(self).stack@[l - 1].wf());
            assert(a@ == old(self).stack_vals()[l - 1]);
        }
        let res = match op {
            Opcode::ISZERO => {
                if is_zero_w(&a) {
                    word_from_u64(1)
                } else {
                    word_from_u64(0)
                }
            },
            _ => not_w(&a),
        };
        proof {
            assert(res@ == apply1(op, a@));
        }
        self.stack.push(res);
        proof {
            vstd::std_specs::vec::axiom_spec_len(&self.bytecode);
        }
        self.pc = self.pc + 1;
        proof {
            assert(self.stack_vals() =~= old(self).stack_vals().take(l - 1).push(res@));
        }
        Ok(())
    }

    /// One 2-operand opcode: check depth, pop `a` then `b`, compute, push,
    /// step on.
    fn step_binary(&mut self, op: Opcode) -> (r: Result<(), EvmError>)
        requires
            old(self).wf(),
            (old(self).pc as nat) < old(self).bytecode@.len(),
            opcode_of(old(self).bytecode@[old(self).pc as int]) == Some(op),
            arity(op) == 2,
        ensures
            final(self).wf(),
            final(self).bytecode@ == old(self).bytecode@,
            match r {
                Ok(()) => old(self).pc < final(self).pc
                    && final(self).pc <= final(self).bytecode@.len()
                    && spec_run(
                    final(self).bytecode@,
                    final(self).pc as nat,
                    final(self).stack_vals(),
                ) == spec_run(
                    old(self).bytecode@,
                    old(self).pc as nat,
                    old(self).stack_vals(),
                ),
                Err(e) => spec_run(
                    old(self).bytecode@,
                    old(self).pc as nat,
                    old(self).stack_vals(),
                ) == RunOutcome::Failed(e),
            },
    {
        if self.stack.len() < 2 {
            let e = EvmError::StackUnderflow {
                required: 2,
                available: self.stack.len(),
                pc: self.pc,
            };
            return Err(e);
        }
        let ghost l = old(self).stack_vals().len() as int;
        let a = self.stack.pop().unwrap();
        let b = self.stack.pop().unwrap();
        proof {
            assert(old(self).stack@[l - 1].wf());
            assert(old(self).stack@[l - 2].wf());
            assert(a@ == old(self).stack_vals()[l - 1]);
            assert(b@ == old(self).stack_vals()[l - 2]);
        }
        let res = match op {
            Opcode::ADD => u256_add(&a, &b),
            Opcode::MUL => u256_mul(&a, &b),
            Opcode::SUB => u256_sub(&a, &b),
            Opcode::DIV => {
                if is_zero_w(&b) {
                    word_from_u64(0)
                } else {
                    u256_div(&a, &b)
                }
            },
            Opcode::SDIV => {
                if is_zero_w(&b) {
                    word_from_u64(0)
                } else {
                    i256_div(&a, &b)
                }
            },
            Opcode::MOD => {
                if is_zero_w(&b) {
                    word_from_u64(0)
                } else {
                    u256_rem(&a, &b)
                }
            },
            Opcode::SMOD => {
                if is_zero_w(&b) {
                    word_from_u64(0)
                } else {
                    i256_rem(&a, &b)
                }
            },
            Opcode::EXP => exp_w(&a, &b),
            Opcode::SIGNEXTEND => signextend_w(&a, &b),
            Opcode::LT => bool_word(u256_lt(&a, &b)),
            Opcode::GT => bool_word(u256_lt(&b, &a)),
            Opcode::SLT => bool_word(i256_lt(&a, &b)),
            Opcode::SGT => bool_word(i256_lt(&b, &a)),
            Opcode::EQ => bool_word(eq_w(&a, &b)),
            Opcode::AND => and_w(&a, &b),
            Opcode::OR => or_w(&a, &b),
            Opcode::XOR => xor_w(&a, &b),
            Opcode::BYTE => byte_w(&a, &b),
            Opcode::SHL => shl_w(&a, &b),
            Opcode::SHR => shr_w(&a, &b),
            _ => sar_w(&a, &b),
        };
        proof {
            assert(res@ == apply2(op, a@, b@));
        }
        self.stack.push(res);
        proof {
            vstd::std_specs::vec::axiom_spec_len(&self.bytecode);
        }
        self.pc = self.pc + 1;
        proof {
            assert(self.stack_vals() =~= old(self).stack_vals().take(l - 2).push(res@));
        }
        Ok(())
    }

    /// One 3-operand opcode: check depth, pop `a`, `b`, `n`, compute, push,
    /// step on.
    fn step_ternary(&mut self, op: Opcode) -> (r: Result<(), EvmError>)
        requires
            old(self).wf(),
            (old(self).pc as nat) < old(self).bytecode@.len(),
            opcode_of(old(self).bytecode@[old(self).pc as int]) == Some(op),
            arity(op) == 3,
        ensures
            final(self).wf(),
            final(self).bytecode@ == old(self).bytecode@,
            match r {
                Ok(()) => old(self).pc < final(self).pc
                    && final(self).pc <= final(self).bytecode@.len()
                    && spec_run(
                    final(self).bytecode@,
                    final(self).pc as nat,
                    final(self).stack_vals(),
                ) == spec_run(
                    old(self).bytecode@,
                    old(self).pc as nat,
                    old(self).stack_vals(),
                ),
                Err(e) => spec_run(
                    old(self).bytecode@,
                    old(self).pc as nat,
                    old(self).stack_vals(),
                ) == RunOutcome::Failed(e),
            },
    {
        if self.stack.len() < 3 {
            let e = EvmError::StackUnderflow {
                required: 3,
                available: self.stack.len(),
                pc: self.pc,
            };
            return Err(e);
        }
        let ghost l = old(self).stack_vals().len() as int;
        let a = self.stack.pop().unwrap();
        let b = self.stack.pop().unwrap();
        let n = self.stack.pop().unwrap();
        proof {
            assert(old(self).stack@[l - 1].wf());
            assert(old(self).stack@[l - 2].wf());
            assert(old(self).stack@[l - 3].wf());
            assert(a@ == old(self).stack_vals()[l - 1]);
            assert(b@ == old(self).stack_vals()[l - 2]);
            assert(n@ == old(self).stack_vals()[l - 3]);
        }
        let res = match op {
            Opcode::ADDMOD => addmod_w(&a, &b, &n),
            _ => mulmod_w(&a, &b, &n),
        };
        proof {
            assert(res@ == apply3(op, a@, b@, n@));
        }
        self.stack.push(res);
        proof {
            vstd::std_specs::vec::axiom_spec_len(&self.bytecode);
        }
        self.pc = self.pc + 1;
        proof {
            assert(self.stack_vals() =~= old(self).stack_vals().take(l - 3).push(res@));
        }
        Ok(())
    }

    /// Run from the current state to a terminal one. The verdict is exactly
    /// the one `spec_run` gives for this bytecode, counter and stack: the
    /// final stack on a halt, and the error, with its opcode, counts and
    /// counter, on a failure.
    pub fn execute(&mut self) -> (r: Result<(), EvmError>)
        requires
            old(self).wf(),
        ensures
            final(self).wf(),
            final(self).code_spec() == old(self).code_spec(),
            match r {
                Ok(()) => spec_run(
                    old(self).code_spec(),
                    old(self).pc_spec(),
                    old(self).stack_vals(),
                ) == RunOutcome::Halted(final(self).stack_vals()),
                Err(e) => spec_run(
                    old(self).code_spec(),
                    old(self).pc_spec(),
                    old(self).stack_vals(),
                ) == RunOutcome::Failed(e),
            },
    {
        while self.pc < self.bytecode.len()
            invariant
                self.wf(),
                self.bytecode@ == old(self).bytecode@,
                spec_run(self.bytecode@, self.pc as nat, self.stack_vals()) == spec_run(
                    old(self).bytecode@,
                    old(self).pc as nat,
                    old(self).stack_vals(),
                ),
            decreases self.bytecode@.len() - self.pc,
        {
            let b = self.bytecode[self.pc];
            let op = match lookup_opcode(b) {
                Some(op) => op,
                None => {
                    let e = EvmError::UnknownOpcode { byte: b, pc: self.pc };
                    return Err(e);
                },
            };
            let step = match op {
                Opcode::STOP => {
                    return Ok(());
                },
                Opcode::PUSH1 => self.step_push(op, 1),
                Opcode::PUSH2 => self.step_push(op, 2),
                Opcode::PUSH3 => self.step_push(op, 3),
                Opcode::PUSH32 => self.step_push(op, 32),
                Opcode::ISZERO | Opcode::NOT => self.step_unary(op),
                Opcode::ADDMOD | Opcode::MULMOD => self.step_ternary(op),
                Opcode::ADD | Opcode::MUL | Opcode::SUB | Opcode::DIV | Opcode::SDIV
                    | Opcode::MOD | Opcode::SMOD | Opcode::EXP | Opcode::SIGNEXTEND
                    | Opcode::LT | Opcode::GT | Opcode::SLT | Opcode::SGT | Opcode::EQ
                    | Opcode::AND | Opcode::OR | Opcode::XOR | Opcode::BYTE | Opcode::SHL
                    | Opcode::SHR | Opcode::SAR => self.step_binary(op),
            };
            match step {
                Ok(()) => {},
                Err(e) => {
                    return Err(e);
                },
            }
        }
        Ok(())
    }
}

/// The word for a comparison's outcome: 1 for true, 0 for false.
fn bool_word(v: bool) -> (r: Word)
    ensures
        r.wf(),
        r@ == (if v {
            1nat
        } else {
            0nat
        }),
{
    if v {
        word_from_u64(1)
    } else {
        word_from_u64(0)
    }
}

} // verus!
