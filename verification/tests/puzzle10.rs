use puzzles::puzzle10::{solve, solve_part1, solve_part2, solve_part3, Instruction};

const PROGRAM: &[u8] = b"babanananananabananana\nbananabanananabanabananana\nbanananababanananabanana\nxx\nbanananananananananabananaba\nbananababanananaba\n";

#[test]
fn program_halts_with_register_zero() {
    assert_eq!(solve_part1(PROGRAM), 5);
}

#[test]
fn timeouts_over_register_zero() {
    assert_eq!(solve_part2(PROGRAM), 6);
}

#[test]
fn timeouts_over_both_registers() {
    assert_eq!(solve_part3(PROGRAM), 45056);
}

#[test]
fn machine_all_parts() {
    assert_eq!(solve(PROGRAM), (5, 6, 45056));
}

#[test]
fn instructions_as_text() {
    let cases: Vec<(Instruction, &[u8])> = vec![
        (Instruction::Load { val: 5, dest_reg: 3 }, b"mov 5 -> r3"),
        (Instruction::Load { val: 65535, dest_reg: 15 }, b"mov 65535 -> r15"),
        (Instruction::Copy { src_reg: 1, dest_reg: 0 }, b"mov r1 -> r0"),
        (Instruction::Add { src_reg1: 1, src_reg2: 2, dest_reg: 0 }, b"add r1 + r2 -> r0"),
        (Instruction::Sub { src_reg1: 10, src_reg2: 2, dest_reg: 0 }, b"sub r10 - r2 -> r0"),
        (Instruction::Mul { src_reg1: 1, src_reg2: 2, dest_reg: 3 }, b"mul r1 * r2 -> r3"),
        (Instruction::Mod { src_reg1: 4, src_reg2: 5, dest_reg: 6 }, b"mod r4 % r5 -> r6"),
        (Instruction::Inc { reg: 7 }, b"inc r7"),
        (Instruction::Dec { reg: 0 }, b"dec r0"),
        (Instruction::Jmp { label: 120 }, b"jmp 120"),
        (Instruction::Jz { reg: 2, label: 7 }, b"jz  r2 7"),
        (Instruction::Jnz { reg: 2, label: 7 }, b"jnz r2 7"),
    ];
    for (i, t) in cases {
        assert_eq!(i.to_text(), t.to_vec());
    }
}

#[test]
fn area_covers_the_first_row() {
    let r = solve_part2(PROGRAM) / 6;
    let area = solve_part3(PROGRAM);
    assert!(r * 4096 <= area);
    assert!(area <= 16 * 16 * 4096);
}
