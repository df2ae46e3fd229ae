use coffer::{
    BootstrapMethod, ByteReader, Code, CodeAttribute, Error, Instruction, JumpCondition, Label,
    LocalVariable, MapCp, RawConstantEntry, VecCp,
};

fn nop() -> Instruction {
    Instruction::Op(0x00)
}

fn ret() -> Instruction {
    Instruction::Op(0xb1)
}

fn code_of(code: Vec<Instruction>) -> Code {
    Code { max_stack: 1, max_locals: 1, code, catches: vec![], attrs: vec![] }
}

/// Writes a method body and returns the whole attribute body.
fn write(c: &Code, cp: &mut VecCp) -> Vec<u8> {
    let mut out = Vec::new();
    c.write_to(cp, &mut out).expect("write");
    out
}

/// The code array inside a written attribute body.
fn code_bytes(body: &[u8]) -> Vec<u8> {
    let n = u32::from_be_bytes([body[4], body[5], body[6], body[7]]) as usize;
    body[8..8 + n].to_vec()
}

fn read(body: Vec<u8>, cp: &mut MapCp) -> Result<Code, Error> {
    let mut r = ByteReader::new(body);
    Code::read_from(cp, &mut r)
}

#[test]
fn tiny_method() {
    let c = code_of(vec![ret()]);
    let mut cp = VecCp::new();
    let body = write(&c, &mut cp);
    assert_eq!(body, vec![0, 1, 0, 1, 0, 0, 0, 1, 0xb1, 0, 0, 0, 0]);
    let back = read(body, &mut MapCp::new()).unwrap();
    assert_eq!(back, c);
}

#[test]
fn forward_short_branch() {
    let l = Label(0);
    let c = code_of(vec![Instruction::Jump(JumpCondition::Eq, l), nop(), Instruction::Label(l), ret()]);
    let body = write(&c, &mut VecCp::new());
    let code = code_bytes(&body);
    assert_eq!(code, vec![0x99, 0, 4, 0x00, 0xb1]);
    assert_eq!(code.len(), 5);
}

#[test]
fn backward_wide_branch() {
    let l = Label(7);
    let mut insns = vec![Instruction::Label(l)];
    for _ in 0..70000 {
        insns.push(nop());
    }
    insns.push(Instruction::Jump(JumpCondition::Always, l));
    let body = write(&code_of(insns), &mut VecCp::new());
    let code = code_bytes(&body);
    assert_eq!(code.len(), 70005);
    assert_eq!(code[70000], 0xc8);
    assert_eq!(i32::from_be_bytes([code[70001], code[70002], code[70003], code[70004]]), -70000);
}

#[test]
fn far_conditional_branch_is_inverted_over_goto_w() {
    let l = Label(1);
    let mut insns = vec![Instruction::Jump(JumpCondition::Null, l)];
    for _ in 0..40000 {
        insns.push(nop());
    }
    insns.push(Instruction::Label(l));
    insns.push(ret());
    let code = code_bytes(&write(&code_of(insns), &mut VecCp::new()));
    // ifnonnull +8, then goto_w to the target from its own opcode at 3.
    assert_eq!(&code[0..4], &[0xc7, 0, 8, 0xc8]);
    let off = i32::from_be_bytes([code[4], code[5], code[6], code[7]]);
    assert_eq!(off, 40008 - 3);
    assert_eq!(code.len(), 8 + 40000 + 1);
}

#[test]
fn near_branch_at_the_signed_limit_stays_narrow() {
    let l = Label(1);
    let mut insns = vec![Instruction::Jump(JumpCondition::Ne, l)];
    for _ in 0..(32767 - 3) {
        insns.push(nop());
    }
    insns.push(Instruction::Label(l));
    insns.push(ret());
    let code = code_bytes(&write(&code_of(insns), &mut VecCp::new()));
    assert_eq!(&code[0..3], &[0x9a, 0x7f, 0xff]);
}

#[test]
fn tableswitch_alignment() {
    let l = Label(3);
    let mut insns = Vec::new();
    for _ in 0..5 {
        insns.push(nop());
    }
    insns.push(Instruction::TableSwitch { default: l, low: 0, offsets: vec![l] });
    insns.push(Instruction::Label(l));
    insns.push(ret());
    let code = code_bytes(&write(&code_of(insns), &mut VecCp::new()));
    assert_eq!(code[5], 0xaa);
    // Two bytes of padding put the default offset at 8, a multiple of four.
    assert_eq!(&code[6..8], &[0, 0]);
    let def = i32::from_be_bytes([code[8], code[9], code[10], code[11]]);
    let end = 8 + 12 + 4;
    assert_eq!(def, end as i32 - 5);
    assert_eq!(i32::from_be_bytes([code[12], code[13], code[14], code[15]]), 0);
    assert_eq!(i32::from_be_bytes([code[16], code[17], code[18], code[19]]), 0);
    assert_eq!(code[end], 0xb1);
}

#[test]
fn lookupswitch_key_ordering() {
    let (l1, l2, l3) = (Label(1), Label(2), Label(3));
    let insns = vec![
        Instruction::LookupSwitch { default: l1, table: vec![(5, l1), (1, l2), (3, l3)] },
        Instruction::Label(l1),
        nop(),
        Instruction::Label(l2),
        nop(),
        Instruction::Label(l3),
        ret(),
    ];
    let code = code_bytes(&write(&code_of(insns), &mut VecCp::new()));
    assert_eq!(code[0], 0xab);
    assert_eq!(&code[1..4], &[0, 0, 0]);
    let word = |i: usize| i32::from_be_bytes([code[i], code[i + 1], code[i + 2], code[i + 3]]);
    assert_eq!(word(8), 3);
    let keys: Vec<i32> = (0..3).map(|k| word(12 + 8 * k)).collect();
    assert_eq!(keys, vec![1, 3, 5]);
    // The switch takes 4 + 8 + 24 bytes; l1 is right after it.
    assert_eq!(word(4), 36);
    assert_eq!(word(16), 37);
    assert_eq!(word(24), 38);
    assert_eq!(word(32), 36);
}

#[test]
fn lookupswitch_repeated_key_fails() {
    let l = Label(1);
    let insns = vec![
        Instruction::LookupSwitch { default: l, table: vec![(5, l), (5, l)] },
        Instruction::Label(l),
        ret(),
    ];
    let mut out = Vec::new();
    let r = code_of(insns).write_to(&mut VecCp::new(), &mut out);
    assert_eq!(r, Err(Error::Invalid("lookupswitch key")));
}

#[test]
fn branch_to_a_missing_label_fails() {
    let c = code_of(vec![Instruction::Jump(JumpCondition::Always, Label(9)), ret()]);
    let mut out = Vec::new();
    assert_eq!(c.write_to(&mut VecCp::new(), &mut out), Err(Error::Invalid("referenced label")));
}

#[test]
fn label_placed_twice_fails() {
    let c = code_of(vec![Instruction::Label(Label(1)), nop(), Instruction::Label(Label(1)), ret()]);
    let mut out = Vec::new();
    assert_eq!(c.write_to(&mut VecCp::new(), &mut out), Err(Error::Invalid("label placed twice")));
}

#[test]
fn local_var_merge_split() {
    let (start, end) = (Label(0), Label(1));
    let mut insns = vec![Instruction::Label(start)];
    for _ in 0..10 {
        insns.push(nop());
    }
    insns.push(Instruction::Label(end));
    insns.push(ret());
    let var = LocalVariable {
        start,
        end,
        name: b"x".to_vec(),
        descriptor: Some(b"I".to_vec()),
        signature: Some(b"TT;".to_vec()),
        index: 2,
    };
    let c = Code {
        max_stack: 1,
        max_locals: 3,
        code: insns,
        catches: vec![],
        attrs: vec![CodeAttribute::LocalVariables(vec![var.clone()])],
    };
    let mut wcp = VecCp::new();
    let body = write(&c, &mut wcp);
    // Both tables are written, each with one entry over 0..10 for slot 2.
    let attrs_at = 8 + 11 + 2;
    assert_eq!(u16::from_be_bytes([body[attrs_at], body[attrs_at + 1]]), 2);
    let first = attrs_at + 2;
    let len1 = u32::from_be_bytes([body[first + 2], body[first + 3], body[first + 4], body[first + 5]]) as usize;
    assert_eq!(len1, 12);
    assert_eq!(&body[first + 6..first + 10], &[0, 1, 0, 0]);
    assert_eq!(&body[first + 10..first + 12], &[0, 10]);
    assert_eq!(&body[first + 16..first + 18], &[0, 2]);
    let second = first + 6 + len1;
    let len2 = u32::from_be_bytes([body[second + 2], body[second + 3], body[second + 4], body[second + 5]]);
    assert_eq!(len2, 12);

    // Read it back against a pool that holds the written entries.
    let mut pool_bytes = Vec::new();
    wcp.write_to(&mut pool_bytes);
    let mut pr = ByteReader::new(pool_bytes);
    let mut rcp = MapCp::read_from(&mut pr).unwrap();
    let back = read(body, &mut rcp).unwrap();
    let vars: Vec<&LocalVariable> = back
        .attrs
        .iter()
        .filter_map(|a| match a {
            CodeAttribute::LocalVariables(v) => Some(v),
            _ => None,
        })
        .flatten()
        .collect();
    assert_eq!(vars.len(), 1);
    assert_eq!(vars[0].descriptor, Some(b"I".to_vec()));
    assert_eq!(vars[0].signature, Some(b"TT;".to_vec()));
    assert_eq!(vars[0].index, 2);
    assert_eq!(vars[0].name, b"x".to_vec());
}

#[test]
fn local_var_without_descriptor_or_signature_fails() {
    let c = Code {
        max_stack: 0,
        max_locals: 0,
        code: vec![Instruction::Label(Label(0)), ret()],
        catches: vec![],
        attrs: vec![CodeAttribute::LocalVariables(vec![LocalVariable {
            start: Label(0),
            end: Label(0),
            name: b"x".to_vec(),
            descriptor: None,
            signature: None,
            index: 0,
        }])],
    };
    let mut out = Vec::new();
    assert_eq!(c.write_to(&mut VecCp::new(), &mut out), Err(Error::Invalid("local variable")));
}

#[test]
fn deferred_bootstrap() {
    let mut cp = MapCp::new();
    cp.entries.insert(1, RawConstantEntry::InvokeDynamic(0, 2));
    cp.entries.insert(2, RawConstantEntry::NameAndType(3, 4));
    let body = vec![0, 2, 0, 1, 0, 0, 0, 6, 0xba, 0, 1, 0, 0, 0xb1, 0, 0, 0, 0];
    let c = read(body, &mut cp).unwrap();
    assert!(matches!(c.code[0], Instruction::InvokeDynamic(RawConstantEntry::InvokeDynamic(0, 2))));
    assert_eq!(cp.bootstrap_method_of(1), None);
    let bsm = BootstrapMethod { handle: 5, args: vec![6, 7] };
    assert_eq!(cp.bootstrap_methods(&[bsm.clone()]), Ok(()));
    assert_eq!(cp.bootstrap_method_of(1), Some(bsm));
}

#[test]
fn missing_bootstrap_table_is_unresolved() {
    let mut cp = MapCp::new();
    cp.resolve_later(0, 1);
    assert_eq!(cp.bootstrap_methods(&[]), Err(Error::Unresolved));
    assert_eq!(cp.bootstrap_method_of(1), None);
}

#[test]
fn read_places_each_label_once() {
    // goto +4; nop; ifeq -1 (back to the nop); return
    let body = vec![0, 1, 0, 1, 0, 0, 0, 8, 0xa7, 0, 4, 0x00, 0x99, 0xff, 0xff, 0xb1, 0, 0, 0, 0];
    let c = read(body, &mut MapCp::new()).unwrap();
    let labels: Vec<u32> = c
        .code
        .iter()
        .filter_map(|i| match i {
            Instruction::Label(l) => Some(l.0),
            _ => None,
        })
        .collect();
    assert_eq!(labels.len(), 2);
    assert!(labels.contains(&0) && labels.contains(&1));
    assert_eq!(
        c.code,
        vec![
            Instruction::Jump(JumpCondition::Always, Label(0)),
            Instruction::Label(Label(1)),
            nop(),
            Instruction::Label(Label(0)),
            Instruction::Jump(JumpCondition::Eq, Label(1)),
            ret(),
        ]
    );
}

#[test]
fn read_round_trip_keeps_branches() {
    let l = Label(0);
    let c = code_of(vec![
        Instruction::Jump(JumpCondition::Eq, l),
        nop(),
        Instruction::Label(l),
        ret(),
    ]);
    let body = write(&c, &mut VecCp::new());
    let back = read(body, &mut MapCp::new()).unwrap();
    assert_eq!(back, c);
}

#[test]
fn jump_into_an_instruction_fails_on_read() {
    // goto +1 lands inside the goto itself.
    let body = vec![0, 1, 0, 1, 0, 0, 0, 4, 0xa7, 0, 1, 0xb1, 0, 0, 0, 0];
    assert_eq!(read(body, &mut MapCp::new()), Err(Error::Invalid("label offset")));
}

#[test]
fn truncated_code_fails() {
    let body = vec![0, 1, 0, 1, 0, 0, 0, 9, 0xb1];
    assert_eq!(read(body, &mut MapCp::new()), Err(Error::Truncated));
}

#[test]
fn unknown_opcode_fails() {
    let body = vec![0, 1, 0, 1, 0, 0, 0, 1, 0xfe, 0, 0, 0, 0];
    assert_eq!(read(body, &mut MapCp::new()), Err(Error::Invalid("opcode")));
}

#[test]
fn line_numbers_round_trip() {
    let c = code_of(vec![Instruction::LineNumber(42), nop(), Instruction::LineNumber(43), ret()]);
    let mut wcp = VecCp::new();
    let body = write(&c, &mut wcp);
    let mut pool_bytes = Vec::new();
    wcp.write_to(&mut pool_bytes);
    let mut rcp = MapCp::read_from(&mut ByteReader::new(pool_bytes)).unwrap();
    let back = read(body, &mut rcp).unwrap();
    assert_eq!(back.code, c.code);
}

#[test]
fn constants_go_through_the_pool() {
    let e = RawConstantEntry::Int(7);
    let c = code_of(vec![
        Instruction::Ldc(e.clone()),
        Instruction::Ldc(e.clone()),
        Instruction::Local(0x15, 300),
        ret(),
    ]);
    let mut wcp = VecCp::new();
    let code = code_bytes(&write(&c, &mut wcp));
    assert_eq!(code, vec![0x12, 1, 0x12, 1, 0xc4, 0x15, 1, 44, 0xb1]);
    let mut pool = Vec::new();
    wcp.write_to(&mut pool);
    assert_eq!(pool, vec![0, 2, 3, 0, 0, 0, 7]);
}

#[test]
fn bad_opcode_in_op_fails_on_write() {
    let c = code_of(vec![Instruction::Op(0x10)]);
    let mut out = Vec::new();
    assert_eq!(c.write_to(&mut VecCp::new(), &mut out), Err(Error::Invalid("opcode")));
}

#[test]
fn utf8_attribute_name_is_written() {
    let c = Code {
        max_stack: 0,
        max_locals: 0,
        code: vec![ret()],
        catches: vec![],
        attrs: vec![CodeAttribute::Raw { name: b"Custom".to_vec(), data: vec![1, 2, 3] }],
    };
    let mut wcp = VecCp::new();
    let body = write(&c, &mut wcp);
    assert_eq!(&body[body.len() - 11..], &[0, 1, 0, 1, 0, 0, 0, 3, 1, 2, 3]);
    let mut pool = Vec::new();
    wcp.write_to(&mut pool);
    let mut expect = vec![0, 2, 1, 0, 6];
    expect.extend_from_slice(b"Custom");
    assert_eq!(pool, expect);
}

#[test]
fn signed_operands_round_trip() {
    let c = code_of(vec![
        Instruction::Sipush(-2),
        Instruction::Iinc(1, -3),
        Instruction::Iinc(300, -1000),
        Instruction::Byte(0x10, 0xff),
        ret(),
    ]);
    let body = write(&c, &mut VecCp::new());
    let code = code_bytes(&body);
    assert_eq!(
        code,
        vec![0x11, 0xff, 0xfe, 0x84, 1, 0xfd, 0xc4, 0x84, 1, 44, 0xfc, 0x18, 0x10, 0xff, 0xb1]
    );
    assert_eq!(read(body, &mut MapCp::new()).unwrap(), c);
}

#[test]
fn invokeinterface_needs_zero_operand() {
    let mut cp = MapCp::new();
    cp.entries.insert(1, RawConstantEntry::InterfaceMethod(2, 3));
    let ok = vec![0, 1, 0, 1, 0, 0, 0, 6, 0xb9, 0, 1, 2, 0, 0xb1, 0, 0, 0, 0];
    let c = read(ok, &mut cp).unwrap();
    assert_eq!(c.code[0], Instruction::InvokeInterface(RawConstantEntry::InterfaceMethod(2, 3), 2));
    let bad = vec![0, 1, 0, 1, 0, 0, 0, 6, 0xb9, 0, 1, 2, 7, 0xb1, 0, 0, 0, 0];
    assert_eq!(read(bad, &mut cp), Err(Error::Invalid("reserved operand")));
}

#[test]
fn missing_pool_entry_fails_on_read() {
    let body = vec![0, 1, 0, 1, 0, 0, 0, 3, 0xb2, 0, 9, 0, 0, 0, 0];
    assert_eq!(read(body, &mut MapCp::new()), Err(Error::Invalid("constant pool index")));
}

#[test]
fn assembled_positions_match_bytes() {
    let (a, b) = (Label(0), Label(1));
    let code = vec![
        Instruction::Label(a),
        nop(),
        Instruction::LineNumber(7),
        Instruction::Jump(JumpCondition::Always, b),
        Instruction::Label(b),
        Instruction::TableSwitch { default: a, low: 3, offsets: vec![a, b] },
        ret(),
    ];
    let out = coffer::code::assemble(&code, &mut VecCp::new()).unwrap();
    // nop at 0, goto at 1 (3 bytes), label b and the switch at 4, padded to 8.
    assert_eq!(out.labels, vec![(0, 0), (1, 4)]);
    assert_eq!(out.lines, vec![(1, 7)]);
    assert_eq!(&out.bytes[1..4], &[0xa7, 0, 3]);
    assert_eq!(out.bytes[4], 0xaa);
    let word = |i: usize| i32::from_be_bytes([out.bytes[i], out.bytes[i + 1], out.bytes[i + 2], out.bytes[i + 3]]);
    assert_eq!(&out.bytes[5..8], &[0, 0, 0]);
    assert_eq!(word(8), -4);
    assert_eq!(word(12), 3);
    assert_eq!(word(16), 4);
    assert_eq!(word(20), -4);
    assert_eq!(word(24), 0);
    assert_eq!(out.bytes[28], 0xb1);
    assert_eq!(out.bytes.len(), 29);
}

#[test]
fn catch_class_name_round_trip() {
    let (s0, e0, h0) = (Label(0), Label(1), Label(2));
    let c = Code {
        max_stack: 1,
        max_locals: 1,
        code: vec![Instruction::Label(s0), nop(), Instruction::Label(e0), ret(), Instruction::Label(h0), ret()],
        catches: vec![
            coffer::Catch { start: s0, end: e0, handler: h0, catch: Some(b"java/lang/Exception".to_vec()) },
            coffer::Catch { start: s0, end: e0, handler: h0, catch: None },
        ],
        attrs: vec![],
    };
    let mut wcp = VecCp::new();
    let body = write(&c, &mut wcp);
    // code [nop, return, return]; rows (0, 1, 2, class 2) and (0, 1, 2, 0).
    assert_eq!(&body[11..29], &[0, 2, 0, 0, 0, 1, 0, 2, 0, 2, 0, 0, 0, 1, 0, 2, 0, 0]);
    let mut pool = Vec::new();
    wcp.write_to(&mut pool);
    let mut rcp = MapCp::read_from(&mut ByteReader::new(pool)).unwrap();
    let back = read(body, &mut rcp).unwrap();
    assert_eq!(back.catches[0].catch, Some(b"java/lang/Exception".to_vec()));
    assert_eq!(back.catches[1].catch, None);
    assert_eq!(back.code.len(), 6);
}
