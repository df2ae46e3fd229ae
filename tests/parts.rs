use coffer::{
    ByteReader, Error, Labeler, MapCp, RawConstantEntry, RawFrame, Span, StrRef, Token,
    TokenKind, VecCp, VerificationType,
};

#[test]
fn entry_sizes() {
    assert_eq!(RawConstantEntry::Long(1).size(), 2);
    assert_eq!(RawConstantEntry::Double(0).size(), 2);
    assert_eq!(RawConstantEntry::Int(1).size(), 1);
    assert!(RawConstantEntry::Double(0).is_wide());
    assert!(!RawConstantEntry::Class(3).is_wide());
}

#[test]
fn writer_pool_deduplicates_and_skips_after_wide() {
    let mut cp = VecCp::new();
    assert_eq!(cp.insert_raw(RawConstantEntry::Long(5)), 1);
    assert_eq!(cp.insert_raw(RawConstantEntry::Int(5)), 3);
    assert_eq!(cp.insert_raw(RawConstantEntry::Long(5)), 1);
    assert_eq!(cp.insert_raw(RawConstantEntry::Float(0x7fc0_0000)), 4);
    assert_eq!(cp.insert_raw(RawConstantEntry::Float(0x7fc0_0000)), 4);
    let mut out = Vec::new();
    cp.write_to(&mut out);
    assert_eq!(
        out,
        vec![0, 5, 5, 0, 0, 0, 0, 0, 0, 0, 5, 3, 0, 0, 0, 5, 4, 0x7f, 0xc0, 0, 0]
    );
}

#[test]
fn bootstrap_methods_are_numbered() {
    let mut cp = VecCp::new();
    let b = coffer::BootstrapMethod { handle: 1, args: vec![] };
    assert_eq!(cp.insert_bsm(b.clone()), 0);
    assert_eq!(cp.insert_bsm(b), 1);
}

#[test]
fn reader_pool_leaves_slot_after_wide_entry() {
    // count 4: a Long at 1 (taking 2), a Class at 3.
    let bytes = vec![0, 4, 5, 0, 0, 0, 0, 0, 0, 0, 9, 7, 0, 1];
    let mut r = ByteReader::new(bytes);
    let cp = MapCp::read_from(&mut r).unwrap();
    assert_eq!(cp.read_raw(1), Some(RawConstantEntry::Long(9)));
    assert_eq!(cp.read_raw(2), None);
    assert_eq!(cp.read_raw(3), Some(RawConstantEntry::Class(1)));
    assert_eq!(r.pos, 14);
}

#[test]
fn reader_pool_rejects_bad_tag() {
    let mut r = ByteReader::new(vec![0, 2, 2, 0]);
    assert_eq!(MapCp::read_from(&mut r).err(), Some(Error::Invalid("constant pool tag")));
}

#[test]
fn reader_pool_truncated() {
    let mut r = ByteReader::new(vec![0, 2, 7, 0]);
    assert_eq!(MapCp::read_from(&mut r).err(), Some(Error::Truncated));
}

#[test]
fn entry_round_trip() {
    let entries = vec![
        RawConstantEntry::UTF8(b"hi".to_vec()),
        RawConstantEntry::Int(-2),
        RawConstantEntry::Long(-3),
        RawConstantEntry::Double(0x4000_0000_0000_0000),
        RawConstantEntry::MethodHandle(6, 9),
        RawConstantEntry::InvokeDynamic(0, 12),
    ];
    for e in entries {
        let mut out = Vec::new();
        e.write_to(&mut out);
        let mut r = ByteReader::new(out.clone());
        assert_eq!(RawConstantEntry::read_from(&mut r), Ok(e));
        assert_eq!(r.pos, out.len());
    }
    let mut out = Vec::new();
    RawConstantEntry::Int(-2).write_to(&mut out);
    assert_eq!(out, vec![3, 0xff, 0xff, 0xff, 0xfe]);
}

#[test]
fn modified_utf8() {
    let mut out = Vec::new();
    StrRef("a\u{0}\u{e9}").write_to(&mut out);
    assert_eq!(out, vec![0x61, 0xc0, 0x80, 0xc3, 0xa9]);
    let mut out = Vec::new();
    StrRef("\u{1F600}").write_to(&mut out);
    assert_eq!(out, vec![0xed, 0xa0, 0xbd, 0xed, 0xb8, 0x80]);
    let mut out = Vec::new();
    StrRef("\u{20ac}").write_to(&mut out);
    assert_eq!(out, vec![0xe2, 0x82, 0xac]);
}

#[test]
fn frame_same_short_and_long() {
    let mut cp = VecCp::new();
    let mut out = Vec::new();
    RawFrame::Same(5).write_to(&mut cp, &vec![], &mut out).unwrap();
    RawFrame::Same(100).write_to(&mut cp, &vec![], &mut out).unwrap();
    RawFrame::Chop(7, 2).write_to(&mut cp, &vec![], &mut out).unwrap();
    assert_eq!(out, vec![5, 251, 0, 100, 249, 0, 7]);
    let mut r = ByteReader::new(out);
    let mut labels = Labeler::new();
    let rcp = MapCp::new();
    assert_eq!(RawFrame::read_from(&rcp, &mut labels, &mut r), Ok(RawFrame::Same(5)));
    assert_eq!(RawFrame::read_from(&rcp, &mut labels, &mut r), Ok(RawFrame::Same(100)));
    assert_eq!(RawFrame::read_from(&rcp, &mut labels, &mut r), Ok(RawFrame::Chop(7, 2)));
}

#[test]
fn frame_append_and_full() {
    let mut cp = VecCp::new();
    let mut out = Vec::new();
    let f = RawFrame::Append(3, vec![VerificationType::Int, VerificationType::Long]);
    f.write_to(&mut cp, &vec![], &mut out).unwrap();
    assert_eq!(out, vec![253, 0, 3, 1, 4]);
    let g = RawFrame::Full(70, vec![VerificationType::Top], vec![VerificationType::UninitializedVariable(coffer::Label(0))]);
    let mut out2 = Vec::new();
    g.write_to(&mut cp, &vec![(0, 12)], &mut out2).unwrap();
    assert_eq!(out2, vec![255, 0, 70, 0, 1, 0, 0, 1, 8, 0, 12]);
    let mut r = ByteReader::new(out);
    let mut labels = Labeler::new();
    assert_eq!(RawFrame::read_from(&MapCp::new(), &mut labels, &mut r), Ok(f));
    let mut r2 = ByteReader::new(out2);
    assert_eq!(RawFrame::read_from(&MapCp::new(), &mut labels, &mut r2), Ok(g));
    assert_eq!(labels.offsets, vec![12]);
}

#[test]
fn frame_same_locals_one_stack() {
    let mut cp = VecCp::new();
    let mut out = Vec::new();
    RawFrame::SameLocalsOneStack(2, VerificationType::Null).write_to(&mut cp, &vec![], &mut out).unwrap();
    RawFrame::SameLocalsOneStack(64, VerificationType::Float).write_to(&mut cp, &vec![], &mut out).unwrap();
    assert_eq!(out, vec![66, 5, 247, 0, 64, 2]);
}

#[test]
fn frame_object_goes_through_pool() {
    let mut cp = VecCp::new();
    let mut out = Vec::new();
    let t = VerificationType::Object(b"java/lang/Object".to_vec());
    RawFrame::SameLocalsOneStack(0, t.clone()).write_to(&mut cp, &vec![], &mut out).unwrap();
    // The name is entry 1, the class naming it entry 2.
    assert_eq!(out, vec![64, 7, 0, 2]);
    let mut pool = Vec::new();
    cp.write_to(&mut pool);
    let rcp = MapCp::read_from(&mut ByteReader::new(pool)).unwrap();
    assert_eq!(rcp.read_raw(2), Some(RawConstantEntry::Class(1)));
    let mut labels = Labeler::new();
    let back = RawFrame::read_from(&rcp, &mut labels, &mut ByteReader::new(out)).unwrap();
    assert_eq!(back, RawFrame::SameLocalsOneStack(0, t));
}

#[test]
fn frame_invalid_chop_and_append() {
    let mut cp = VecCp::new();
    let mut out = Vec::new();
    assert_eq!(RawFrame::Chop(0, 4).write_to(&mut cp, &vec![], &mut out), Err(Error::Invalid("chop value")));
    assert_eq!(RawFrame::Chop(0, 0).write_to(&mut cp, &vec![], &mut out), Err(Error::Invalid("chop value")));
    let four = vec![VerificationType::Int; 4];
    assert_eq!(RawFrame::Append(0, four).write_to(&mut cp, &vec![], &mut out), Err(Error::Invalid("append locals")));
    assert!(out.is_empty());
}

#[test]
fn frame_reserved_tag() {
    let mut labels = Labeler::new();
    let r = RawFrame::read_from(&MapCp::new(), &mut labels, &mut ByteReader::new(vec![200]));
    assert_eq!(r, Err(Error::Invalid("reserved frame tag")));
}

#[test]
fn verification_type_width() {
    assert!(VerificationType::Long.is_wide());
    assert!(VerificationType::Double.is_wide());
    assert!(!VerificationType::Int.is_wide());
}

#[test]
fn labeler_reuses_offsets() {
    let mut l = Labeler::new();
    assert_eq!(l.get_label(10).0, 0);
    assert_eq!(l.get_label(4).0, 1);
    assert_eq!(l.get_label(10).0, 0);
    assert_eq!(l.offsets, vec![10, 4]);
}

#[test]
fn span_cover() {
    let a = Span::new(3, 5);
    let b = Span::new(1, 4);
    let c = a.to(b);
    assert_eq!((c.lo(), c.hi()), (1, 5));
    assert_eq!(a.lo(), 3);
    assert_eq!(a.hi(), 5);
}

#[test]
fn dummy_token() {
    let t = Token::dummy();
    assert!(matches!(t.kind, TokenKind::Dot));
    assert_eq!((t.span.lo(), t.span.hi()), (0, 0));
}

#[test]
fn bootstrap_fills_what_it_can_before_failing() {
    let mut cp = MapCp::new();
    cp.resolve_later(0, 1);
    cp.resolve_later(5, 2);
    let m = coffer::BootstrapMethod { handle: 4, args: vec![1] };
    assert_eq!(cp.bootstrap_methods(&[m.clone()]), Err(Error::Unresolved));
    assert_eq!(cp.bootstrap_method_of(1), Some(m.clone()));
    assert_eq!(cp.bootstrap_method_of(2), None);
    // The unresolved reference stays pending and is filled by a longer table.
    let table: Vec<coffer::BootstrapMethod> = (0..6).map(|i| coffer::BootstrapMethod { handle: i, args: vec![] }).collect();
    assert_eq!(cp.bootstrap_methods(&table), Ok(()));
    assert_eq!(cp.bootstrap_method_of(2), Some(table[5].clone()));
    assert_eq!(cp.bootstrap_methods(&[]), Ok(()));
}

#[test]
fn reserved_frame_tag_consumes_one_byte() {
    let mut labels = Labeler::new();
    let mut r = ByteReader::new(vec![130, 0, 5]);
    assert_eq!(RawFrame::read_from(&MapCp::new(), &mut labels, &mut r), Err(Error::Invalid("reserved frame tag")));
    assert_eq!(r.pos, 1);
}

#[test]
fn frame_object_with_bad_pool_index_fails() {
    let mut labels = Labeler::new();
    let mut r = ByteReader::new(vec![64, 7, 0, 9]);
    assert_eq!(RawFrame::read_from(&MapCp::new(), &mut labels, &mut r), Err(Error::Invalid("constant pool index")));
}

#[test]
fn full_frame_round_trip_with_objects() {
    let mut cp = VecCp::new();
    let f = RawFrame::Full(
        3,
        vec![VerificationType::Object(b"A".to_vec()), VerificationType::Int],
        vec![VerificationType::Object(b"A".to_vec())],
    );
    let mut out = Vec::new();
    f.write_to(&mut cp, &vec![], &mut out).unwrap();
    assert_eq!(out, vec![255, 0, 3, 0, 2, 7, 0, 2, 1, 0, 1, 7, 0, 2]);
    let mut pool = Vec::new();
    cp.write_to(&mut pool);
    let rcp = MapCp::read_from(&mut ByteReader::new(pool)).unwrap();
    let mut labels = Labeler::new();
    assert_eq!(RawFrame::read_from(&rcp, &mut labels, &mut ByteReader::new(out)), Ok(f));
}

#[test]
fn truncated_entry_and_pool() {
    let mut r = ByteReader::new(vec![1, 0, 5, b'a']);
    assert_eq!(RawConstantEntry::read_from(&mut r), Err(Error::Truncated));
    let mut r = ByteReader::new(vec![0, 3, 5, 0, 0]);
    assert_eq!(MapCp::read_from(&mut r).err(), Some(Error::Truncated));
}
