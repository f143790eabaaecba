//! Names, texts, layouts and conversions on their own.

use crabbit::abi::{
    align_to, arg_abi_for_ty, crabbit_ty_align, crabbit_ty_size, simple_abi_leaves_for_ty, ArgAbi,
};
use crabbit::convert::{
    convert_immediate_ty, convert_return_ty, convert_storage_ty, convert_ty, fmt_arguments_ty,
    slice_ref_ty, str_ref_ty, type_symbol, unit_ty, usize_ty,
};
use crabbit::error::Failure;
use crabbit::floats::{float_math_intrinsic, float_symbol, FloatMathLowering};
use crabbit::importer::create_context;
use crabbit::kernel::{kernel_entry_name, kernel_export_symbol, KERNEL_EXPORT_PREFIX};
use crabbit::layout::{
    field_offset_of, layout_align_of_ty, layout_size_of_ty, memory_ordered_fields,
    rustc_layout_size_of_ty, struct_like_field_offsets, struct_like_size,
};
use crabbit::mir::{BlockData, Body, Owner, Terminator};
use crabbit::names::{legal_identifier, Names};
use crabbit::ox::{byte_ptr_unit_key, func_linkage_key};
use crabbit::text::{
    after, before, contains, decimal, find, has_prefix, has_suffix, hex_suffix,
    parse_debug_string_const, parse_rust_byte_string_literal, parse_rust_string_literal,
};
use crabbit::ty::{
    int_width, uint_width, AdtKind, IntTy, Layout, Tail, TyId, TyInfo, TyKind, TyTable, UintTy,
    Variant, Variants,
};
use crabbit::types::{Signedness, StructBody, TypeHandle};

fn one_type(id: usize, kind: TyKind, size: u64, align: u64) -> TyInfo {
    TyInfo {
        kind,
        normal: TyId(id),
        printed: format!("T{}", id),
        full_name: format!("krate::T{}", id),
        path: format!("krate::T{}", id),
        args: Vec::new(),
        sized: true,
        tail: TyId(id),
        needs_drop: false,
        drop_glue: None,
        boxed: None,
        discriminant: TyId(id),
        layout: Some(Layout {
            size,
            align,
            order: None,
            offsets: Vec::new(),
            variants: Variants::Single(0),
            variant_offsets: Vec::new(),
        }),
        depth: id,
    }
}

fn table_of(kinds: Vec<(TyKind, u64, u64)>) -> TyTable {
    let mut types = Vec::new();
    for (id, (kind, size, align)) in kinds.into_iter().enumerate() {
        types.push(one_type(id, kind, size, align));
    }
    TyTable { types }
}

fn plain_struct(fields: Vec<TyId>) -> TyKind {
    let count = fields.len();
    TyKind::Adt(
        AdtKind::Struct,
        fields,
        vec![Variant { name: "S".to_string(), fields: count, discriminant: 0 }],
    )
}

fn ok<T>(r: Result<T, Failure>) -> T {
    match r {
        Ok(value) => value,
        Err(failure) => panic!("failed: {:?}", failure),
    }
}

#[test]
fn sizes_are_moved_up_to_alignments() {
    assert_eq!(ok(align_to(0, 8)), 0);
    assert_eq!(ok(align_to(1, 8)), 8);
    assert_eq!(ok(align_to(8, 8)), 8);
    assert_eq!(ok(align_to(13, 4)), 16);
    assert_eq!(ok(align_to(13, 1)), 13);
    assert_eq!(ok(align_to(13, 0)), 13);
    assert_eq!(ok(align_to(65, 64)), 128);
    assert_eq!(ok(align_to(1, 1 << 40)), 1 << 40);
    assert_eq!(ok(align_to(13, 6)), 18);
    assert!(matches!(align_to(u64::MAX, 8), Err(Failure::TooLarge)));
}

#[test]
fn sizes_of_converted_types() {
    let byte = TypeHandle::integer(8, Signedness::Unsigned);
    let word = TypeHandle::integer(32, Signedness::Signed);
    let pair = TypeHandle::unnamed_struct(&vec![byte.clone(), word.clone()]);
    assert_eq!(ok(crabbit_ty_size(&pair)), 8);
    assert_eq!(ok(crabbit_ty_align(&pair)), 4);
    assert_eq!(ok(crabbit_ty_size(&TypeHandle::array(pair, 3))), 24);
    assert_eq!(ok(crabbit_ty_size(&TypeHandle::integer(1, Signedness::Signless))), 1);
    assert_eq!(ok(crabbit_ty_size(&TypeHandle::Unit)), 0);
    let opaque = TypeHandle::Struct { name: None, body: StructBody::Opaque };
    assert!(matches!(crabbit_ty_size(&opaque), Err(Failure::OpaqueSize)));
    assert!(matches!(crabbit_ty_size(&TypeHandle::Void), Err(Failure::UnsizedType(_))));
    let huge = TypeHandle::array(word, u64::MAX);
    assert!(matches!(crabbit_ty_size(&huge), Err(Failure::TooLarge)));
}

#[test]
fn large_values_go_by_address_and_empty_ones_not_at_all() {
    let word = TypeHandle::integer(64, Signedness::Unsigned);
    let two = TypeHandle::unnamed_struct(&vec![word.clone(), word.clone()]);
    let three = TypeHandle::unnamed_struct(&vec![word.clone(), word.clone(), word.clone()]);
    let small_array = TypeHandle::array(TypeHandle::integer(8, Signedness::Unsigned), 4);
    assert!(matches!(arg_abi_for_ty(&two), Ok(ArgAbi::Leaves(leaves)) if leaves.len() == 2));
    assert!(matches!(arg_abi_for_ty(&three), Ok(ArgAbi::Indirect)));
    assert!(matches!(arg_abi_for_ty(&small_array), Ok(ArgAbi::Indirect)));
    assert!(matches!(arg_abi_for_ty(&unit_ty()), Ok(ArgAbi::Leaves(leaves)) if leaves.is_empty()));
    assert!(matches!(
        simple_abi_leaves_for_ty(&small_array),
        Err(Failure::AggregateArgument(_))
    ));
    let opaque = TypeHandle::Struct { name: None, body: StructBody::Opaque };
    assert!(matches!(simple_abi_leaves_for_ty(&opaque), Err(Failure::OpaqueArgument)));
}

#[test]
fn names_become_identifiers() {
    assert_eq!(legal_identifier("plain_name9"), "plain_name9");
    assert_eq!(legal_identifier("Vec<u8>::new"), "Vec_u8___new");
    assert_eq!(legal_identifier("9lives"), "_lives");
    assert_eq!(legal_identifier(""), "_");
    assert_eq!(legal_identifier("\u{e9}t\u{e9}.1"), "\u{e9}t__1");
    assert_eq!(legal_identifier("\u{2026}x"), "_x");
    let mut names = Names::new();
    let first = names.legal_identifier("a.b");
    let second = names.legal_identifier("a:b");
    assert_eq!(first, "a_b");
    assert_eq!(second, "a_b_0");
    assert_eq!(names.legal_identifier("a_b_0"), "a_b_0_1");
    assert_eq!(names.legal_identifier("a.b"), first);
    assert_eq!(names.legal_identifier("a:b"), second);
}

#[test]
fn kernels_are_named_without_their_prefix() {
    let mut owner = Owner {
        path: "krate::k".to_string(),
        is_codegen: true,
        is_generic: false,
        export_name: Some(format!("{}blur", KERNEL_EXPORT_PREFIX)),
        no_mangle: false,
        name: "k".to_string(),
        mangled: "_ZN5krate1kE".to_string(),
        body: Body {
            locals: vec![],
            arg_count: 0,
            spread_arg: None,
            blocks: vec![BlockData { statements: vec![], terminator: Terminator::Return }],
        },
    };
    assert_eq!(kernel_entry_name(&owner), "blur");
    owner.export_name = Some(KERNEL_EXPORT_PREFIX.to_string());
    assert_eq!(kernel_entry_name(&owner), KERNEL_EXPORT_PREFIX);
    owner.export_name = None;
    assert_eq!(kernel_entry_name(&owner), "krate::k");
    owner.no_mangle = true;
    owner.name = format!("{}edge", KERNEL_EXPORT_PREFIX);
    assert_eq!(kernel_entry_name(&owner), "edge");
    assert_eq!(
        kernel_export_symbol(&None, true, &owner.name),
        Some(format!("{}edge", KERNEL_EXPORT_PREFIX))
    );
    assert_eq!(kernel_export_symbol(&None, false, &owner.name), None);
    assert_eq!(kernel_export_symbol(&Some("plain".to_string()), true, &owner.name), None);
}

#[test]
fn texts_are_searched() {
    assert!(has_prefix("prefix", "pre"));
    assert!(!has_prefix("pre", "prefix"));
    assert!(has_suffix("suffix", "fix"));
    assert!(!has_suffix("suffix", "fi"));
    assert_eq!(find("abcabc", "ca"), Some(2));
    assert_eq!(find("abcabc", "abc"), Some(0));
    assert_eq!(find("abc", "d"), None);
    assert!(contains("abc", ""));
    assert_eq!(after("abc", 1), "bc");
    assert_eq!(before("abc", 2), "ab");
    assert_eq!(decimal(0), "0");
    assert_eq!(decimal(18446744073709551615), "18446744073709551615");
}

#[test]
fn different_bytes_have_different_hexadecimal_texts() {
    assert_eq!(hex_suffix(&vec![]), "");
    assert_eq!(hex_suffix(&vec![0, 255, 16]), "00ff10");
    assert_ne!(hex_suffix(&vec![1, 0]), hex_suffix(&vec![0, 1]));
    assert_ne!(hex_suffix(&vec![0x10]), hex_suffix(&vec![1, 0]));
}

#[test]
fn string_literals_read_as_what_they_say() {
    assert_eq!(parse_rust_string_literal("\"plain\""), Some("plain".to_string()));
    assert_eq!(
        parse_rust_string_literal("\"a\\\"b\\\\c\\n\" and more"),
        Some("a\"b\\c\n".to_string())
    );
    assert_eq!(parse_rust_string_literal("\"\\r\\t\\0\""), Some("\r\t\0".to_string()));
    assert_eq!(parse_rust_string_literal("\"open"), None);
    assert_eq!(parse_rust_string_literal("bare"), None);
    assert_eq!(parse_rust_string_literal("\"\""), Some(String::new()));
    assert_eq!(
        parse_rust_byte_string_literal("b\"ab\\n\""),
        Some(vec![b'a', b'b', b'\n'])
    );
    assert_eq!(parse_rust_byte_string_literal("\"ab\""), None);
    assert_eq!(
        parse_debug_string_const("Val(const \"hi\", &str)"),
        Some("hi".to_string())
    );
    assert_eq!(parse_debug_string_const("Val(const 3)"), None);
}

#[test]
fn functions_on_floats_are_looked_up() {
    assert!(matches!(
        float_math_intrinsic("sqrtf64"),
        Some(FloatMathLowering::Inline("sqrt"))
    ));
    let power = float_math_intrinsic("powif32").expect("known");
    assert_eq!(float_symbol(&power, true), "__powisf2");
    assert_eq!(float_symbol(&power, false), "__powidf2");
    assert!(float_math_intrinsic("gammaf64").is_none());
}

#[test]
fn widths_of_integers() {
    assert_eq!(int_width(IntTy::I16), 16);
    assert_eq!(int_width(IntTy::Isize), 64);
    assert_eq!(uint_width(UintTy::U128), 128);
    assert_eq!(uint_width(UintTy::Usize), 64);
}

#[test]
fn fields_lie_in_the_order_of_the_layout() {
    let mut table = table_of(vec![
        (TyKind::Uint(UintTy::U8), 1, 1),
        (TyKind::Uint(UintTy::U32), 4, 4),
        (TyKind::Uint(UintTy::U16), 2, 2),
        (plain_struct(vec![TyId(0), TyId(1), TyId(2)]), 8, 4),
    ]);
    assert_eq!(table.struct_memory_order(TyId(3), 3), vec![0, 1, 2]);
    table.types[3].layout.as_mut().unwrap().order = Some(vec![1, 2, 0]);
    assert_eq!(table.struct_memory_order(TyId(3), 3), vec![1, 2, 0]);
    for index in 0..3 {
        let position = table.field_memory_position(TyId(3), 3, index);
        assert_eq!(table.struct_memory_order(TyId(3), 3)[position], index);
    }
    assert_eq!(
        ok(memory_ordered_fields(&table, TyId(3))),
        vec![TyId(1), TyId(2), TyId(0)]
    );
    assert_eq!(table.struct_memory_order(TyId(3), 2), vec![0, 1]);
}

#[test]
fn fields_do_not_overlap_and_are_aligned() {
    let table = table_of(vec![
        (TyKind::Uint(UintTy::U8), 1, 1),
        (TyKind::Uint(UintTy::U32), 4, 4),
        (TyKind::Tuple(vec![]), 0, 1),
        (TyKind::Uint(UintTy::U16), 2, 2),
        (plain_struct(vec![TyId(0), TyId(1), TyId(2), TyId(3)]), 12, 4),
    ]);
    let fields = vec![TyId(0), TyId(1), TyId(2), TyId(3)];
    let (offsets, end) = ok(struct_like_field_offsets(&table, 4, &fields));
    assert_eq!(offsets, vec![0, 4, 8, 8]);
    assert_eq!(end, 10);
    assert_eq!(ok(struct_like_size(&table, 4, &fields)), 12);
    assert_eq!(ok(layout_size_of_ty(&table, TyId(4))), 12);
    assert_eq!(ok(layout_align_of_ty(&table, TyId(4))), 4);
    assert_eq!(ok(field_offset_of(&table, TyId(4), None, 3)), 8);
    for i in 0..4 {
        let offset = ok(field_offset_of(&table, TyId(4), None, i));
        let end = offset + ok(layout_size_of_ty(&table, fields[i]));
        assert_eq!(offset % ok(layout_align_of_ty(&table, fields[i])), 0);
        for j in 0..i {
            let other = ok(field_offset_of(&table, TyId(4), None, j));
            assert!(end <= other || other + ok(layout_size_of_ty(&table, fields[j])) <= offset);
        }
    }
    assert!(matches!(
        field_offset_of(&table, TyId(4), None, 9),
        Err(Failure::Field { index: 9, count: 4 })
    ));
}

#[test]
fn sizes_are_multiples_of_alignments_and_hold_their_fields() {
    let table = table_of(vec![
        (TyKind::Uint(UintTy::U8), 1, 1),
        (TyKind::Uint(UintTy::U128), 16, 16),
        (TyKind::Tuple(vec![]), 0, 1),
        (plain_struct(vec![TyId(1), TyId(0), TyId(2)]), 32, 16),
        (TyKind::Array(TyId(3), Some(5)), 160, 16),
        (TyKind::Tuple(vec![TyId(0), TyId(4), TyId(2)]), 176, 16),
    ]);
    for id in 0..6 {
        let size = ok(layout_size_of_ty(&table, TyId(id)));
        assert_eq!(size % ok(layout_align_of_ty(&table, TyId(id))), 0);
    }
    for (id, fields) in [(3, [TyId(1), TyId(0), TyId(2)]), (5, [TyId(0), TyId(4), TyId(2)])] {
        for index in 0..3 {
            let offset = ok(field_offset_of(&table, TyId(id), None, index));
            let size = ok(layout_size_of_ty(&table, fields[index]));
            assert!(offset + size <= ok(layout_size_of_ty(&table, TyId(id))));
        }
        assert_eq!(
            ok(struct_like_size(&table, id, &fields[..2].to_vec())),
            ok(struct_like_size(&table, id, &fields.to_vec()))
        );
    }
}

#[test]
fn layout_follows_conversion() {
    let table = table_of(vec![
        (TyKind::Uint(UintTy::U8), 1, 1),
        (TyKind::Int(IntTy::I64), 8, 8),
        (TyKind::Bool, 1, 1),
        (TyKind::Char, 4, 4),
        (TyKind::F32, 4, 4),
        (TyKind::Tuple(vec![TyId(0), TyId(1)]), 16, 8),
        (TyKind::Array(TyId(5), Some(3)), 48, 8),
        (TyKind::Ref(TyId(1)), 8, 8),
        (plain_struct(vec![TyId(6), TyId(2), TyId(7)]), 64, 8),
        (TyKind::Tuple(vec![]), 0, 1),
    ]);
    for id in 0..10 {
        let converted = ok(convert_ty(&table, TyId(id)));
        assert_eq!(ok(crabbit_ty_size(&converted)), ok(layout_size_of_ty(&table, TyId(id))));
        assert_eq!(ok(rustc_layout_size_of_ty(&table, TyId(id))), ok(crabbit_ty_size(&converted)));
        if id != 9 {
            assert_eq!(
                ok(crabbit_ty_align(&converted)),
                ok(layout_align_of_ty(&table, TyId(id)))
            );
        }
    }
}

#[test]
fn types_are_converted() {
    let mut table = table_of(vec![
        (TyKind::Bool, 1, 1),
        (TyKind::Str, 0, 1),
        (TyKind::Ref(TyId(1)), 16, 8),
        (TyKind::Uint(UintTy::U16), 2, 2),
        (TyKind::Slice(TyId(3)), 0, 2),
        (TyKind::Ref(TyId(4)), 16, 8),
        (TyKind::Tuple(vec![]), 0, 1),
        (TyKind::Never, 0, 1),
        (TyKind::Other, 4, 4),
        (plain_struct(vec![TyId(3)]), 2, 2),
        (TyKind::Array(TyId(3), None), 0, 2),
        (TyKind::Dynamic(None), 0, 1),
    ]);
    for id in [1, 4, 11] {
        table.types[id].sized = false;
        table.types[id].layout = None;
    }
    assert!(ok(convert_ty(&table, TyId(0))).same(&TypeHandle::integer(8, Signedness::Signless)));
    assert!(ok(convert_immediate_ty(&table, TyId(0)))
        .same(&TypeHandle::integer(1, Signedness::Signless)));
    assert!(ok(convert_ty(&table, TyId(2))).same(&str_ref_ty()));
    assert!(ok(convert_ty(&table, TyId(5))).same(&slice_ref_ty()));
    assert!(ok(convert_ty(&table, TyId(3))).same(&TypeHandle::integer(16, Signedness::Unsigned)));
    assert!(ok(convert_storage_ty(&table, TyId(6))).is_none());
    assert!(ok(convert_return_ty(&table, TyId(6))).is_none());
    assert!(ok(convert_return_ty(&table, TyId(7))).is_none());
    assert!(matches!(convert_ty(&table, TyId(8)), Err(Failure::Type(TyId(8)))));
    assert!(matches!(convert_ty(&table, TyId(10)), Err(Failure::ArrayLength(_))));
    match ok(convert_ty(&table, TyId(9))) {
        TypeHandle::Struct { name: Some(name), .. } => {
            assert_eq!(type_symbol(&table, name), legal_identifier(&type_symbol(&table, name)));
        }
        other => panic!("no struct: {:?}", other),
    }
    assert_eq!(table.pointee_unsized_tail(TyId(4)), Some(Tail::Slice(TyId(3))));
    assert_eq!(table.pointee_unsized_tail(TyId(11)), Some(Tail::Dynamic));
    assert_eq!(table.pointee_unsized_tail(TyId(3)), None);
    assert_eq!(ok(crabbit_ty_size(&usize_ty())), 8);
    assert!(fmt_arguments_ty().struct_fields().is_some());
}

#[test]
fn a_context_knows_its_dialects() {
    let ctx = create_context();
    assert_eq!(ctx.dialects, vec!["aarch64", "x86_64", "mir", "macho"]);
}

#[test]
fn attributes_have_keys() {
    assert_eq!(func_linkage_key(), "mir_func_linkage");
    assert_eq!(byte_ptr_unit_key(), "ptr_offset_unit");
}
