//! A register machine whose program is written with the syllables "ba" and "na".
//!
//! Each line is read two bytes at a time. A line that does not start with "ba"
//! defines a label: its number is the count of the remaining two-byte chunks, and it
//! names the next instruction. Any other line is an instruction: its fields are
//! runs of "na" chunks, each closed by one chunk of another kind; the first field
//! is the opcode and the rest are the operands.
use std::collections::HashMap;
use vstd::prelude::*;
use crate::text::{line_ranges, lines, ranges_in, ranges_view};

verus! {

broadcast use vstd::std_specs::hash::group_hash_axioms;

/// One instruction of the machine; registers are numbered from 0.
#[derive(Clone, Copy, Debug, PartialEq, Eq)]
pub enum Instruction {
    Load { val: u16, dest_reg: usize },
    Copy { src_reg: usize, dest_reg: usize },
    Add { src_reg1: usize, src_reg2: usize, dest_reg: usize },
    Sub { src_reg1: usize, src_reg2: usize, dest_reg: usize },
    Mul { src_reg1: usize, src_reg2: usize, dest_reg: usize },
    Mod { src_reg1: usize, src_reg2: usize, dest_reg: usize },
    Inc { reg: usize },
    Dec { reg: usize },
    Jmp { label: usize },
    Jz { reg: usize, label: usize },
    Jnz { reg: usize, label: usize },
}

/// The machine has this many registers.
pub const REGISTERS: usize = 16;

/// A run stops once this many instructions have executed without halting.
pub const STEP_LIMIT: usize = 5_000_000;

/// Chunk `k` of line `l` is "na".
pub open spec fn chunk_is_na(l: Seq<u8>, k: int) -> bool {
    l[2 * k] == 110 && l[2 * k + 1] == 97
}

/// The number of "na" chunks from chunk `k` on.
pub open spec fn na_run(l: Seq<u8>, k: int) -> nat
    decreases l.len() / 2 - k,
{
    if 0 <= k < l.len() / 2 && chunk_is_na(l, k) {
        1 + na_run(l, k + 1)
    } else {
        0
    }
}

/// The chunk after a field that starts at chunk `k`: the run of "na" and the chunk
/// that closes it are consumed.
pub open spec fn after_field(l: Seq<u8>, k: int) -> int {
    if k + na_run(l, k) < l.len() / 2 {
        k + na_run(l, k) + 1
    } else {
        (l.len() / 2) as int
    }
}

/// `n` consecutive fields read from chunk `k` on.
pub open spec fn fields(l: Seq<u8>, k: int, n: nat) -> Seq<nat>
    decreases n,
{
    if n == 0 {
        seq![]
    } else {
        seq![na_run(l, k)] + fields(l, after_field(l, k), (n - 1) as nat)
    }
}

/// A line that defines a label: its first chunk is not "ba".
pub open spec fn is_label_line(l: Seq<u8>) -> bool {
    !(l[0] == 98 && l[1] == 97)
}

/// The number of a label line.
pub open spec fn label_of(l: Seq<u8>) -> usize {
    (l.len() / 2 - 1) as usize
}

/// The instruction that an instruction line encodes.
pub open spec fn decode(l: Seq<u8>) -> Instruction {
    let f = fields(l, 1, 4);
    let (op, a, b, c) = (f[0], f[1] as usize, f[2] as usize, f[3] as usize);
    if op == 0 {
        Instruction::Load { val: f[1] as u16, dest_reg: b }
    } else if op == 1 {
        Instruction::Copy { src_reg: a, dest_reg: b }
    } else if op == 2 {
        Instruction::Add { src_reg1: a, src_reg2: b, dest_reg: c }
    } else if op == 3 {
        Instruction::Sub { src_reg1: a, src_reg2: b, dest_reg: c }
    } else if op == 4 {
        Instruction::Mul { src_reg1: a, src_reg2: b, dest_reg: c }
    } else if op == 5 {
        Instruction::Mod { src_reg1: a, src_reg2: b, dest_reg: c }
    } else if op == 6 {
        Instruction::Inc { reg: a }
    } else if op == 7 {
        Instruction::Dec { reg: a }
    } else if op == 8 {
        Instruction::Jmp { label: a }
    } else if op == 9 {
        Instruction::Jz { reg: a, label: b }
    } else {
        Instruction::Jnz { reg: a, label: b }
    }
}

/// A line that can be read: it holds at least one chunk, and an instruction line
/// has an opcode up to 10 and, for a load, a value that fits in a `u16`.
pub open spec fn line_ok(l: Seq<u8>) -> bool {
    &&& l.len() >= 2
    &&& !is_label_line(l) ==> {
        let f = fields(l, 1, 4);
        &&& f[0] <= 10
        &&& f[0] == 0 ==> f[1] <= u16::MAX
    }
}

/// The program and the label table that the lines define.
pub open spec fn assemble(ls: Seq<Seq<u8>>) -> (Seq<Instruction>, Map<usize, usize>)
    decreases ls.len(),
{
    if ls.len() == 0 {
        (seq![], Map::empty())
    } else {
        let (p, m) = assemble(ls.drop_last());
        let l = ls.last();
        if is_label_line(l) {
            (p, m.insert(label_of(l), p.len() as usize))
        } else {
            (p.push(decode(l)), m)
        }
    }
}

/// Every line of the input can be read.
pub open spec fn parsable(s: Seq<u8>) -> bool {
    forall|i: int| 0 <= i < lines(s).len() ==> line_ok(#[trigger] lines(s)[i])
}

pub open spec fn program_of(s: Seq<u8>) -> Seq<Instruction> {
    assemble(lines(s)).0
}

pub open spec fn labels_of(s: Seq<u8>) -> Map<usize, usize> {
    assemble(lines(s)).1
}

/// Addition, subtraction and multiplication modulo 2^16.
pub open spec fn wrap(x: int) -> u16 {
    (x % 0x10000) as u16
}

/// A register number that exists.
pub open spec fn reg_ok(r: usize) -> bool {
    r < REGISTERS
}

/// One step of the machine at `pc`; `None` where the step would fail (a register
/// that does not exist, or a jump to a label that was never defined).
pub open spec fn step(prog: Seq<Instruction>, labels: Map<usize, usize>, pc: int, regs: Seq<u16>) -> Option<(int, Seq<u16>)> {
    match prog[pc] {
        Instruction::Load { val, dest_reg } =>
            if reg_ok(dest_reg) { Some((pc + 1, regs.update(dest_reg as int, val))) } else { None },
        Instruction::Copy { src_reg, dest_reg } =>
            if reg_ok(src_reg) && reg_ok(dest_reg) { Some((pc + 1, regs.update(dest_reg as int, regs[src_reg as int]))) } else { None },
        Instruction::Add { src_reg1, src_reg2, dest_reg } =>
            if reg_ok(src_reg1) && reg_ok(src_reg2) && reg_ok(dest_reg) {
                Some((pc + 1, regs.update(dest_reg as int, wrap(regs[src_reg1 as int] + regs[src_reg2 as int]))))
            } else { None },
        Instruction::Sub { src_reg1, src_reg2, dest_reg } =>
            if reg_ok(src_reg1) && reg_ok(src_reg2) && reg_ok(dest_reg) {
                Some((pc + 1, regs.update(dest_reg as int, wrap(regs[src_reg1 as int] - regs[src_reg2 as int]))))
            } else { None },
        Instruction::Mul { src_reg1, src_reg2, dest_reg } =>
            if reg_ok(src_reg1) && reg_ok(src_reg2) && reg_ok(dest_reg) {
                Some((pc + 1, regs.update(dest_reg as int, wrap(regs[src_reg1 as int] * regs[src_reg2 as int]))))
            } else { None },
        Instruction::Mod { src_reg1, src_reg2, dest_reg } =>
            if reg_ok(src_reg1) && reg_ok(src_reg2) && reg_ok(dest_reg) {
                let d = regs[src_reg2 as int];
                Some((pc + 1, regs.update(dest_reg as int, if d != 0 { (regs[src_reg1 as int] % d) as u16 } else { 0 })))
            } else { None },
        Instruction::Inc { reg } =>
            if reg_ok(reg) { Some((pc + 1, regs.update(reg as int, wrap(regs[reg as int] + 1)))) } else { None },
        Instruction::Dec { reg } =>
            if reg_ok(reg) { Some((pc + 1, regs.update(reg as int, wrap(regs[reg as int] - 1)))) } else { None },
        Instruction::Jmp { label } =>
            if labels.contains_key(label) { Some((labels[label] as int, regs)) } else { None },
        Instruction::Jz { reg, label } =>
            if !reg_ok(reg) { None }
            else if regs[reg as int] != 0 { Some((pc + 1, regs)) }
            else if labels.contains_key(label) { Some((labels[label] as int, regs)) }
            else { None },
        Instruction::Jnz { reg, label } =>
            if !reg_ok(reg) { None }
            else if regs[reg as int] == 0 { Some((pc + 1, regs)) }
            else if labels.contains_key(label) { Some((labels[label] as int, regs)) }
            else { None },
    }
}

/// The jumps: `jmp` goes to its label's instruction; `jz` goes there when its
/// register is 0 and on to the next instruction otherwise; `jnz` goes there when
/// its register is not 0 and on to the next instruction otherwise. No jump changes a
/// register.
pub proof fn law_jumps(prog: Seq<Instruction>, labels: Map<usize, usize>, pc: int, regs: Seq<u16>, r: usize, label: usize)
    requires
        0 <= pc < prog.len(),
        r < REGISTERS,
        labels.contains_key(label),
    ensures
        prog[pc] == (Instruction::Jmp { label }) ==> step(prog, labels, pc, regs) == Some((labels[label] as int, regs)),
        prog[pc] == (Instruction::Jz { reg: r, label }) ==> step(prog, labels, pc, regs) == Some(
            (if regs[r as int] == 0 { labels[label] as int } else { pc + 1 }, regs),
        ),
        prog[pc] == (Instruction::Jnz { reg: r, label }) ==> step(prog, labels, pc, regs) == Some(
            (if regs[r as int] != 0 { labels[label] as int } else { pc + 1 }, regs),
        ),
{
}

/// A countdown loop `inc rX; dec rY; jnz rY L`, with `L` naming its first
/// instruction, entered with `rY = n >= 1`: it runs `n` times, taking `3 * n` steps,
/// and leaves the loop with `rX` increased by `n` and `rY` at 0.
pub proof fn law_countdown_loop(prog: Seq<Instruction>, labels: Map<usize, usize>, a: int, label: usize, x: usize, y: usize, regs: Seq<u16>, n: nat, fuel: nat)
    requires
        0 <= a,
        a + 2 < prog.len(),
        prog[a] == (Instruction::Inc { reg: x }),
        prog[a + 1] == (Instruction::Dec { reg: y }),
        prog[a + 2] == (Instruction::Jnz { reg: y, label }),
        labels.contains_key(label),
        labels[label] == a,
        x < REGISTERS,
        y < REGISTERS,
        x != y,
        regs.len() == REGISTERS,
        n >= 1,
        regs[y as int] == n,
        regs[x as int] + n <= u16::MAX,
        fuel >= 3 * n,
    ensures
        run(prog, labels, a, regs, fuel) == run(
            prog,
            labels,
            a + 3,
            regs.update(x as int, (regs[x as int] + n) as u16).update(y as int, 0u16),
            (fuel - 3 * n) as nat,
        ),
    decreases n,
{
    let r1 = regs.update(x as int, wrap(regs[x as int] + 1));
    let r2 = r1.update(y as int, wrap(r1[y as int] - 1));
    assert(wrap(regs[x as int] + 1) == regs[x as int] + 1);
    assert(r1[y as int] == n);
    assert(wrap(r1[y as int] - 1) == n - 1);
    assert(step(prog, labels, a, regs) == Some((a + 1, r1)));
    assert(run(prog, labels, a, regs, fuel) == run(prog, labels, a + 1, r1, (fuel - 1) as nat));
    assert(step(prog, labels, a + 1, r1) == Some((a + 2, r2)));
    assert(run(prog, labels, a + 1, r1, (fuel - 1) as nat) == run(prog, labels, a + 2, r2, (fuel - 2) as nat));
    assert(r2[y as int] == n - 1);
    if n == 1 {
        assert(step(prog, labels, a + 2, r2) == Some((a + 3, r2)));
        assert(run(prog, labels, a + 2, r2, (fuel - 2) as nat) == run(prog, labels, a + 3, r2, (fuel - 3) as nat));
        assert(r2 =~= regs.update(x as int, (regs[x as int] + n) as u16).update(y as int, 0u16));
    } else {
        assert(step(prog, labels, a + 2, r2) == Some((a, r2)));
        assert(run(prog, labels, a + 2, r2, (fuel - 2) as nat) == run(prog, labels, a, r2, (fuel - 3) as nat));
        assert(r2[x as int] == regs[x as int] + 1);
        law_countdown_loop(prog, labels, a, label, x, y, r2, (n - 1) as nat, (fuel - 3) as nat);
        assert(r2.update(x as int, (r2[x as int] + (n - 1)) as u16).update(y as int, 0u16)
            =~= regs.update(x as int, (regs[x as int] + n) as u16).update(y as int, 0u16));
    }
}

/// How a run ends.
pub enum Outcome {
    /// The program counter left the program; register 0 holds this value.
    Halted(u16),
    /// The step limit was reached first.
    TimedOut,
    /// A step failed.
    Fault,
}

/// Runs from `pc` with `fuel` more instructions allowed.
pub open spec fn run(prog: Seq<Instruction>, labels: Map<usize, usize>, pc: int, regs: Seq<u16>, fuel: nat) -> Outcome
    decreases fuel,
{
    if pc < 0 || pc >= prog.len() {
        Outcome::Halted(regs[0])
    } else if fuel == 0 {
        Outcome::TimedOut
    } else {
        match step(prog, labels, pc, regs) {
            None => Outcome::Fault,
            Some((next_pc, next_regs)) => run(prog, labels, next_pc, next_regs, (fuel - 1) as nat),
        }
    }
}

/// The registers at the start: all zero but the first two.
pub open spec fn initial_regs(r0: u16, r1: u16) -> Seq<u16> {
    Seq::new(REGISTERS as nat, |i: int| 0u16).update(0, r0).update(1, r1)
}

/// The outcome of running the program from its first instruction.
pub open spec fn outcome(prog: Seq<Instruction>, labels: Map<usize, usize>, r0: u16, r1: u16) -> Outcome {
    run(prog, labels, 0, initial_regs(r0, r1), STEP_LIMIT as nat)
}

/// Reads the field that starts at chunk `k`: the length of its "na" run and the
/// chunk after it.
fn read_field(l: &[u8], k: usize) -> (r: (usize, usize))
    requires
        k <= l@.len() / 2,
    ensures
        r.0 == na_run(l@, k as int),
        r.1 == after_field(l@, k as int),
        r.1 <= l@.len() / 2,
{
    let len: usize = l.len();
    let n: usize = len / 2;
    let mut j: usize = k;
    loop
        invariant
            k <= j <= n,
            n == l@.len() / 2,
            len == l@.len(),
            2 * n <= len,
            na_run(l@, k as int) == (j - k) + na_run(l@, j as int),
        ensures
            k <= j <= n,
            na_run(l@, k as int) == j - k,
        decreases n - j,
    {
        if j >= n {
            break;
        }
        let p: usize = j + j;
        if !(l[p] == 110 && l[p + 1] == 97) {
            break;
        }
        j = j + 1;
    }
    let next: usize = if j < n { j + 1 } else { n };
    (j - k, next)
}

/// Reads the lines of the input into a program and its label table.
fn parse_program(input: &[u8]) -> (r: (Vec<Instruction>, HashMap<usize, usize>))
    requires
        parsable(input@),
    ensures
        r.0@ == program_of(input@),
        r.1@ == labels_of(input@),
{
    let ranges = line_ranges(input);
    let ghost ls = lines(input@);
    let mut program: Vec<Instruction> = Vec::new();
    let mut labels: HashMap<usize, usize> = HashMap::new();
    let mut i: usize = 0;
    while i < ranges.len()
        invariant
            i <= ranges@.len() == ls.len(),
            ls == lines(input@),
            ranges_in(ranges@, input@.len()),
            ranges_view(input@, ranges@) == ls,
            parsable(input@),
            (program@, labels@) == assemble(ls.take(i as int)),
        decreases ranges@.len() - i,
    {
        let (a, b) = ranges[i];
        proof {
            assert(ranges@[i as int].0 <= ranges@[i as int].1);
        }
        let line = vstd::slice::slice_subrange(input, a, b);
        let ghost l = line@;
        proof {
            assert(l == ls[i as int]);
            assert(line_ok(l));
            assert(ls.take(i + 1).drop_last() =~= ls.take(i as int));
            assert(ls.take(i + 1).last() == l);
        }
        if !(line[0] == 98 && line[1] == 97) {
            let label: usize = line.len() / 2 - 1;
            labels.insert(label, program.len());
        } else {
            let (op, k1) = read_field(line, 1);
            let (f1, k2) = read_field(line, k1);
            let (f2, k3) = read_field(line, k2);
            let (f3, _k4) = read_field(line, k3);
            proof {
                reveal_with_fuel(fields, 5);
                let f = fields(l, 1, 4);
                assert(f[0] == op && f[1] == f1 && f[2] == f2 && f[3] == f3);
            }
            let ins = if op == 0 {
                Instruction::Load { val: f1 as u16, dest_reg: f2 }
            } else if op == 1 {
                Instruction::Copy { src_reg: f1, dest_reg: f2 }
            } else if op == 2 {
                Instruction::Add { src_reg1: f1, src_reg2: f2, dest_reg: f3 }
            } else if op == 3 {
                Instruction::Sub { src_reg1: f1, src_reg2: f2, dest_reg: f3 }
            } else if op == 4 {
                Instruction::Mul { src_reg1: f1, src_reg2: f2, dest_reg: f3 }
            } else if op == 5 {
                Instruction::Mod { src_reg1: f1, src_reg2: f2, dest_reg: f3 }
            } else if op == 6 {
                Instruction::Inc { reg: f1 }
            } else if op == 7 {
                Instruction::Dec { reg: f1 }
            } else if op == 8 {
                Instruction::Jmp { label: f1 }
            } else if op == 9 {
                Instruction::Jz { reg: f1, label: f2 }
            } else {
                Instruction::Jnz { reg: f1, label: f2 }
            };
            program.push(ins);
        }
        i = i + 1;
    }
    proof {
        assert(ls.take(i as int) =~= ls);
    }
    (program, labels)
}


/// The instruction index that `label` names.
fn lookup(labels: &HashMap<usize, usize>, label: usize) -> (r: usize)
    requires
        labels@.contains_key(label),
    ensures
        r == labels@[label],
{
    match labels.get(&label) {
        Some(t) => *t,
        None => 0,
    }
}

/// Executes the instruction at `pc` and returns the next program counter.
fn execute(program: &Vec<Instruction>, labels: &HashMap<usize, usize>, pc: usize, regs: &mut Vec<u16>) -> (next: usize)
    requires
        pc < program.len(),
        old(regs)@.len() == REGISTERS,
        step(program@, labels@, pc as int, old(regs)@) is Some,
    ensures
        step(program@, labels@, pc as int, old(regs)@) == Some((next as int, final(regs)@)),
        final(regs)@.len() == REGISTERS,
{
    let ins = program[pc];
    match ins {
        Instruction::Load { val, dest_reg } => {
            regs.set(dest_reg, val);
        },
        Instruction::Copy { src_reg, dest_reg } => {
            let v: u16 = regs[src_reg];
            regs.set(dest_reg, v);
        },
        Instruction::Add { src_reg1, src_reg2, dest_reg } => {
            let v: u16 = regs[src_reg1].wrapping_add(regs[src_reg2]);
            regs.set(dest_reg, v);
        },
        Instruction::Sub { src_reg1, src_reg2, dest_reg } => {
            let v: u16 = regs[src_reg1].wrapping_sub(regs[src_reg2]);
            regs.set(dest_reg, v);
        },
        Instruction::Mul { src_reg1, src_reg2, dest_reg } => {
            let v: u16 = regs[src_reg1].wrapping_mul(regs[src_reg2]);
            regs.set(dest_reg, v);
        },
        Instruction::Mod { src_reg1, src_reg2, dest_reg } => {
            let d: u16 = regs[src_reg2];
            let v: u16 = if d != 0 { regs[src_reg1] % d } else { 0 };
            regs.set(dest_reg, v);
        },
        Instruction::Inc { reg } => {
            let v: u16 = regs[reg].wrapping_add(1);
            regs.set(reg, v);
        },
        Instruction::Dec { reg } => {
            let v: u16 = regs[reg].wrapping_sub(1);
            regs.set(reg, v);
        },
        Instruction::Jmp { label } => {
            return lookup(labels, label);
        },
        Instruction::Jz { reg, label } => {
            if regs[reg] == 0 {
                return lookup(labels, label);
            }
        },
        Instruction::Jnz { reg, label } => {
            if regs[reg] != 0 {
                return lookup(labels, label);
            }
        },
    }
    pc + 1
}

/// Runs the program with registers 0 and 1 set to `init_r0` and `init_r1`.
/// Returns register 0 once the program counter leaves the program, or `None`
/// when the step limit is reached first.
fn exec_program(program: &Vec<Instruction>, labels: &HashMap<usize, usize>, init_r0: u16, init_r1: u16) -> (r: Option<u16>)
    requires
        outcome(program@, labels@, init_r0, init_r1) != Outcome::Fault,
    ensures
        r == match outcome(program@, labels@, init_r0, init_r1) {
            Outcome::Halted(v) => Some(v),
            _ => None,
        },
{
    let ghost prog = program@;
    let ghost lab = labels@;
    let ghost goal = outcome(prog, lab, init_r0, init_r1);
    let mut regs: Vec<u16> = Vec::new();
    let mut k: usize = 0;
    while k < REGISTERS
        invariant
            k <= REGISTERS,
            regs@ =~= Seq::new(k as nat, |i: int| 0u16),
        decreases REGISTERS - k,
    {
        regs.push(0);
        k = k + 1;
    }
    regs.set(0, init_r0);
    regs.set(1, init_r1);
    assert(regs@ =~= initial_regs(init_r0, init_r1));
    let mut pc: usize = 0;
    let mut instrs: usize = 0;
    while pc < program.len()
        invariant
            prog == program@,
            lab == labels@,
            regs@.len() == REGISTERS,
            instrs <= STEP_LIMIT,
            goal == outcome(prog, lab, init_r0, init_r1),
            goal != Outcome::Fault,
            run(prog, lab, pc as int, regs@, (STEP_LIMIT - instrs) as nat) == goal,
        decreases STEP_LIMIT - instrs,
    {
        if instrs >= STEP_LIMIT {
            return None;
        }
        instrs = instrs + 1;
        pc = execute(program, labels, pc, &mut regs);
    }
    Some(regs[0])
}


/// No run with `r0 < 16` and the given `r1` fails.
pub open spec fn runs_ok(prog: Seq<Instruction>, labels: Map<usize, usize>, r1: u16) -> bool {
    forall|r0: u16| r0 < 16 ==> outcome(prog, labels, r0, r1) != Outcome::Fault
}

/// The number of start values `r0 < n` (with the given `r1`) whose run reaches the
/// step limit.
pub open spec fn timeouts(prog: Seq<Instruction>, labels: Map<usize, usize>, r1: u16, n: nat) -> nat
    decreases n,
{
    if n == 0 {
        0
    } else {
        timeouts(prog, labels, r1, (n - 1) as nat) + if outcome(prog, labels, (n - 1) as u16, r1)
            is TimedOut {
            1nat
        } else {
            0nat
        }
    }
}

/// The start values `r0 < n` (with the given `r1`) whose run reaches the step limit.
pub open spec fn timed_out_starts(prog: Seq<Instruction>, labels: Map<usize, usize>, r1: u16, n: nat) -> Set<u16> {
    Set::new(|r0: u16| r0 < n && outcome(prog, labels, r0, r1) is TimedOut)
}

/// `timeouts` counts the start values whose run reaches the step limit: it is the
/// size of the set of those values.
pub proof fn law_timeouts_count_starts(prog: Seq<Instruction>, labels: Map<usize, usize>, r1: u16, n: nat)
    requires
        n <= 65536,
    ensures
        timed_out_starts(prog, labels, r1, n).finite(),
        timeouts(prog, labels, r1, n) == timed_out_starts(prog, labels, r1, n).len(),
    decreases n,
{
    let cur = timed_out_starts(prog, labels, r1, n);
    if n == 0 {
        assert(cur =~= Set::<u16>::empty());
    } else {
        law_timeouts_count_starts(prog, labels, r1, (n - 1) as nat);
        let prev = timed_out_starts(prog, labels, r1, (n - 1) as nat);
        let x = (n - 1) as u16;
        assert(x as nat == n - 1);
        if outcome(prog, labels, x, r1) is TimedOut {
            assert(cur =~= prev.insert(x));
            assert(!prev.contains(x));
        } else {
            assert(cur =~= prev);
        }
    }
}

/// The start pairs `(r0, r1)` with `r0 < 16` and `r1 < n` whose run reaches the step
/// limit.
pub open spec fn timed_out_pairs(prog: Seq<Instruction>, labels: Map<usize, usize>, n: nat) -> Set<(u16, u16)> {
    Set::new(|q: (u16, u16)| q.0 < 16 && q.1 < n && outcome(prog, labels, q.0, q.1) is TimedOut)
}

/// Part 3 counts 4096 for each start pair that times out: `timeout_area` is 4096
/// times the number of pairs `(r0, r1)` below `(16, n)` whose run reaches the step
/// limit.
pub proof fn law_area_counts_pairs(prog: Seq<Instruction>, labels: Map<usize, usize>, n: nat)
    requires
        n <= 65536,
    ensures
        timed_out_pairs(prog, labels, n).finite(),
        timeout_area(prog, labels, n) == 4096 * timed_out_pairs(prog, labels, n).len(),
    decreases n,
{
    let cur = timed_out_pairs(prog, labels, n);
    if n == 0 {
        assert(cur =~= Set::<(u16, u16)>::empty());
    } else {
        law_area_counts_pairs(prog, labels, (n - 1) as nat);
        let prev = timed_out_pairs(prog, labels, (n - 1) as nat);
        let r1 = (n - 1) as u16;
        assert(r1 as nat == n - 1);
        law_timeouts_count_starts(prog, labels, r1, 16);
        let starts = timed_out_starts(prog, labels, r1, 16);
        let f = |r0: u16| (r0, r1);
        let row = starts.map(f);
        assert(vstd::relations::injective_on(f, starts)) by {
            assert forall|a: u16, b: u16| starts.contains(a) && starts.contains(b) && #[trigger] f(a) == #[trigger] f(b) implies a == b by {}
        }
        vstd::set_lib::lemma_map_size(starts, row, f);
        assert forall|q: (u16, u16)| #[trigger] cur.contains(q) <==> (prev + row).contains(q) by {
            if q.1 == r1 && cur.contains(q) {
                assert(starts.contains(q.0));
                assert(f(q.0) == q);
            }
            if row.contains(q) {
                let a = choose|a: u16| starts.contains(a) && f(a) == q;
                assert(q.1 as nat == n - 1);
            }
        }
        assert(cur =~= prev + row);
        assert(prev.disjoint(row)) by {
            assert forall|q: (u16, u16)| prev.contains(q) implies !row.contains(q) by {
                if row.contains(q) {
                    let a = choose|a: u16| starts.contains(a) && f(a) == q;
                }
            }
        }
        vstd::set_lib::lemma_set_disjoint_lens(prev, row);
        assert(timeout_area(prog, labels, n) == timeout_area(prog, labels, (n - 1) as nat) + timeouts(prog, labels, r1, 16) * 4096);
    }
}

/// The part 3 total over the values `r1 < n`.
pub open spec fn timeout_area(prog: Seq<Instruction>, labels: Map<usize, usize>, n: nat) -> nat
    decreases n,
{
    if n == 0 {
        0
    } else {
        timeout_area(prog, labels, (n - 1) as nat) + timeouts(prog, labels, (n - 1) as u16, 16) * 4096
    }
}

/// The value in register 0 when the program, started with all registers zero, halts.
pub fn solve_part1(input: &[u8]) -> (r: u16)
    requires
        parsable(input@),
        outcome(program_of(input@), labels_of(input@), 0, 0) is Halted,
    ensures
        outcome(program_of(input@), labels_of(input@), 0, 0) == Outcome::Halted(r),
{
    let (program, labels) = parse_program(input);
    match exec_program(&program, &labels, 0, 0) {
        Some(v) => v,
        None => 0,
    }
}

fn count_timeouts(program: &Vec<Instruction>, labels: &HashMap<usize, usize>, r1: u16) -> (r: usize)
    requires
        runs_ok(program@, labels@, r1),
    ensures
        r == timeouts(program@, labels@, r1, 16),
        r <= 16,
{
    let mut count: usize = 0;
    let mut r0: u16 = 0;
    while r0 < 16
        invariant
            r0 <= 16,
            runs_ok(program@, labels@, r1),
            count == timeouts(program@, labels@, r1, r0 as nat),
            count <= r0,
        decreases 16 - r0,
    {
        if exec_program(program, labels, r0, r1).is_none() {
            count = count + 1;
        }
        r0 = r0 + 1;
    }
    count
}

/// The number of start values below 16 for register 0 whose run reaches the step
/// limit, scaled to a range of 100 values.
pub fn solve_part2(input: &[u8]) -> (r: usize)
    requires
        parsable(input@),
        runs_ok(program_of(input@), labels_of(input@), 0),
    ensures
        r == timeouts(program_of(input@), labels_of(input@), 0, 16) * (100nat / 16nat),
{
    let (program, labels) = parse_program(input);
    count_timeouts(&program, &labels, 0) * (100 / 16)
}

/// Over the start values below 16 for registers 0 and 1, the number of runs that
/// reach the step limit, each counted for 4096 values of the full 16-bit range.
pub fn solve_part3(input: &[u8]) -> (r: usize)
    requires
        parsable(input@),
        forall|r1: u16| r1 < 16 ==> runs_ok(program_of(input@), labels_of(input@), r1),
    ensures
        r == timeout_area(program_of(input@), labels_of(input@), 16),
{
    let (program, labels) = parse_program(input);
    let mut total: usize = 0;
    let mut r1: u16 = 0;
    while r1 < 16
        invariant
            r1 <= 16,
            forall|r: u16| r < 16 ==> runs_ok(program@, labels@, r),
            total == timeout_area(program@, labels@, r1 as nat),
            total <= r1 * 16 * 4096,
        decreases 16 - r1,
    {
        let c: usize = count_timeouts(&program, &labels, r1);
        proof {
            lemma_timeouts_bound(program@, labels@, r1, 16);
        }
        total = total + c * 4096;
        r1 = r1 + 1;
    }
    total
}

/// Of `n` start values at most `n` time out.
pub proof fn lemma_timeouts_bound(prog: Seq<Instruction>, labels: Map<usize, usize>, r1: u16, n: nat)
    ensures
        timeouts(prog, labels, r1, n) <= n,
    decreases n,
{
    if n > 0 {
        lemma_timeouts_bound(prog, labels, r1, (n - 1) as nat);
    }
}

/// Part 3 counts the runs that part 2 counts and more: its total over the values
/// of register 1 includes the runs with register 1 at 0, each weighed 4096, and
/// never exceeds 4096 for each of the `16 * n` runs.
pub proof fn law_area_covers_first_row(prog: Seq<Instruction>, labels: Map<usize, usize>, n: nat)
    requires
        n >= 1,
    ensures
        timeouts(prog, labels, 0, 16) * 4096 <= timeout_area(prog, labels, n),
        timeout_area(prog, labels, n) <= n * 16 * 4096,
    decreases n,
{
    lemma_timeouts_bound(prog, labels, (n - 1) as u16, 16);
    if n > 1 {
        law_area_covers_first_row(prog, labels, (n - 1) as nat);
    } else {
        assert(timeout_area(prog, labels, 0) == 0);
        assert((0int as u16) == 0u16);
    }
}

/// The three answers.
pub fn solve(input: &[u8]) -> (r: (u16, usize, usize))
    requires
        parsable(input@),
        outcome(program_of(input@), labels_of(input@), 0, 0) is Halted,
        forall|r1: u16| r1 < 16 ==> runs_ok(program_of(input@), labels_of(input@), r1),
    ensures
        outcome(program_of(input@), labels_of(input@), 0, 0) == Outcome::Halted(r.0),
        r.1 == timeouts(program_of(input@), labels_of(input@), 0, 16) * (100nat / 16nat),
        r.2 == timeout_area(program_of(input@), labels_of(input@), 16),
{
    (solve_part1(input), solve_part2(input), solve_part3(input))
}


/// The decimal digits of `n`, most significant first.
pub open spec fn decimal_text(n: nat) -> Seq<u8>
    decreases n,
{
    if n < 10 {
        seq![(48 + n) as u8]
    } else {
        decimal_text(n / 10).push((48 + n % 10) as u8)
    }
}

/// `r` followed by the register's number.
pub open spec fn reg_text(r: nat) -> Seq<u8> {
    seq![114u8] + decimal_text(r)
}

/// The bytes of `" -> "`.
pub open spec fn arrow() -> Seq<u8> {
    seq![32u8, 45u8, 62u8, 32u8]
}

/// A binary operation `name rA op rB -> rD`.
pub open spec fn binary_text(name: Seq<u8>, op: u8, a: nat, b: nat, d: nat) -> Seq<u8> {
    name + seq![32u8] + reg_text(a) + seq![32u8, op, 32u8] + reg_text(b) + arrow() + reg_text(d)
}

/// How an instruction is written: `mov 5 -> r3`, `add r1 + r2 -> r0`, `jz  r2 7`
/// (two spaces), `jnz r2 7` and so on.
pub open spec fn text_of(i: Instruction) -> Seq<u8> {
    match i {
        Instruction::Load { val, dest_reg } => seq![109u8, 111u8, 118u8, 32u8] + decimal_text(val as nat) + arrow() + reg_text(dest_reg as nat),
        Instruction::Copy { src_reg, dest_reg } => seq![109u8, 111u8, 118u8, 32u8] + reg_text(src_reg as nat) + arrow() + reg_text(dest_reg as nat),
        Instruction::Add { src_reg1, src_reg2, dest_reg } => binary_text(seq![97u8, 100u8, 100u8], 43u8, src_reg1 as nat, src_reg2 as nat, dest_reg as nat),
        Instruction::Sub { src_reg1, src_reg2, dest_reg } => binary_text(seq![115u8, 117u8, 98u8], 45u8, src_reg1 as nat, src_reg2 as nat, dest_reg as nat),
        Instruction::Mul { src_reg1, src_reg2, dest_reg } => binary_text(seq![109u8, 117u8, 108u8], 42u8, src_reg1 as nat, src_reg2 as nat, dest_reg as nat),
        Instruction::Mod { src_reg1, src_reg2, dest_reg } => binary_text(seq![109u8, 111u8, 100u8], 37u8, src_reg1 as nat, src_reg2 as nat, dest_reg as nat),
        Instruction::Inc { reg } => seq![105u8, 110u8, 99u8, 32u8] + reg_text(reg as nat),
        Instruction::Dec { reg } => seq![100u8, 101u8, 99u8, 32u8] + reg_text(reg as nat),
        Instruction::Jmp { label } => seq![106u8, 109u8, 112u8, 32u8] + decimal_text(label as nat),
        Instruction::Jz { reg, label } => seq![106u8, 122u8, 32u8, 32u8] + reg_text(reg as nat) + seq![32u8] + decimal_text(label as nat),
        Instruction::Jnz { reg, label } => seq![106u8, 110u8, 122u8, 32u8] + reg_text(reg as nat) + seq![32u8] + decimal_text(label as nat),
    }
}

/// Appends the decimal digits of `n`.
fn push_decimal(out: &mut Vec<u8>, n: usize)
    ensures
        final(out)@ == old(out)@ + decimal_text(n as nat),
    decreases n,
{
    if n >= 10 {
        push_decimal(out, n / 10);
    }
    out.push(48 + (n % 10) as u8);
    proof {
        if n < 10 {
            assert(decimal_text(n as nat) =~= seq![(48 + n) as u8]);
        }
    }
}

/// Appends `r` and a register's number.
fn push_reg(out: &mut Vec<u8>, r: usize)
    ensures
        final(out)@ == old(out)@ + reg_text(r as nat),
{
    let ghost o = out@;
    out.push(114);
    push_decimal(out, r);
    proof {
        assert(out@ =~= o + reg_text(r as nat));
    }
}

/// Appends `" -> "`.
fn push_arrow(out: &mut Vec<u8>)
    ensures
        final(out)@ == old(out)@ + arrow(),
{
    let ghost o = out@;
    out.push(32);
    out.push(45);
    out.push(62);
    out.push(32);
    proof {
        assert(out@ =~= o + arrow());
    }
}

/// Appends three bytes.
fn push3(out: &mut Vec<u8>, a: u8, b: u8, c: u8)
    ensures
        final(out)@ == old(out)@ + seq![a, b, c],
{
    let ghost o = out@;
    out.push(a);
    out.push(b);
    out.push(c);
    proof {
        assert(out@ =~= o + seq![a, b, c]);
    }
}

/// Appends `name rA op rB -> rD`.
fn push_binary(out: &mut Vec<u8>, name: (u8, u8, u8), op: u8, a: usize, b: usize, d: usize)
    ensures
        final(out)@ == old(out)@ + binary_text(seq![name.0, name.1, name.2], op, a as nat, b as nat, d as nat),
{
    let ghost o = out@;
    push3(out, name.0, name.1, name.2);
    out.push(32);
    push_reg(out, a);
    push3(out, 32, op, 32);
    push_reg(out, b);
    push_arrow(out);
    push_reg(out, d);
    proof {
        assert(out@ =~= o + binary_text(seq![name.0, name.1, name.2], op, a as nat, b as nat, d as nat));
    }
}

impl Instruction {
    /// The instruction as text, as the puzzle writes it.
    pub fn to_text(&self) -> (r: Vec<u8>)
        ensures
            r@ == text_of(*self),
    {
        let mut out: Vec<u8> = Vec::new();
        match *self {
            Instruction::Load { val, dest_reg } => {
                push3(&mut out, 109, 111, 118);
                out.push(32);
                push_decimal(&mut out, val as usize);
                push_arrow(&mut out);
                push_reg(&mut out, dest_reg);
            },
            Instruction::Copy { src_reg, dest_reg } => {
                push3(&mut out, 109, 111, 118);
                out.push(32);
                push_reg(&mut out, src_reg);
                push_arrow(&mut out);
                push_reg(&mut out, dest_reg);
            },
            Instruction::Add { src_reg1, src_reg2, dest_reg } => {
                push_binary(&mut out, (97, 100, 100), 43, src_reg1, src_reg2, dest_reg);
            },
            Instruction::Sub { src_reg1, src_reg2, dest_reg } => {
                push_binary(&mut out, (115, 117, 98), 45, src_reg1, src_reg2, dest_reg);
            },
            Instruction::Mul { src_reg1, src_reg2, dest_reg } => {
                push_binary(&mut out, (109, 117, 108), 42, src_reg1, src_reg2, dest_reg);
            },
            Instruction::Mod { src_reg1, src_reg2, dest_reg } => {
                push_binary(&mut out, (109, 111, 100), 37, src_reg1, src_reg2, dest_reg);
            },
            Instruction::Inc { reg } => {
                push3(&mut out, 105, 110, 99);
                out.push(32);
                push_reg(&mut out, reg);
            },
            Instruction::Dec { reg } => {
                push3(&mut out, 100, 101, 99);
                out.push(32);
                push_reg(&mut out, reg);
            },
            Instruction::Jmp { label } => {
                push3(&mut out, 106, 109, 112);
                out.push(32);
                push_decimal(&mut out, label);
            },
            Instruction::Jz { reg, label } => {
                push3(&mut out, 106, 122, 32);
                out.push(32);
                push_reg(&mut out, reg);
                out.push(32);
                push_decimal(&mut out, label);
            },
            Instruction::Jnz { reg, label } => {
                push3(&mut out, 106, 110, 122);
                out.push(32);
                push_reg(&mut out, reg);
                out.push(32);
                push_decimal(&mut out, label);
            },
        }
        proof {
            assert(out@ =~= text_of(*self));
        }
        out
    }
}

} // verus!
