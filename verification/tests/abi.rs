use crabbit::abi::collect_simple_abi_fields;
use crabbit::importer::create_context;
use crabbit::types::{Signedness, TypeHandle};

#[test]
fn abi_field_collection_flattens_simple_structs() {
    let ctx = create_context();
    assert_eq!(ctx.dialects.len(), 4);
    let ptr_ty = TypeHandle::Pointer { address_space: 0 };
    let i32_ty = TypeHandle::Integer {
        width: 32,
        signedness: Signedness::Signed,
    };
    let i64_ty = TypeHandle::Integer {
        width: 64,
        signedness: Signedness::Unsigned,
    };
    let nested_ty = TypeHandle::unnamed_struct(&vec![i32_ty.clone(), ptr_ty.clone()]);
    let aggregate_ty =
        TypeHandle::unnamed_struct(&vec![ptr_ty.clone(), i64_ty.clone(), nested_ty]);

    let mut fields = Vec::new();
    assert!(collect_simple_abi_fields(&aggregate_ty, &Vec::new(), &mut fields).is_ok());

    let indices = fields
        .iter()
        .map(|(indices, _)| indices.clone())
        .collect::<Vec<_>>();
    assert_eq!(indices, vec![vec![0], vec![1], vec![2, 0], vec![2, 1]]);
    assert!(fields[0].1.same(&ptr_ty));
    assert!(fields[1].1.same(&i64_ty));
    assert!(fields[2].1.same(&i32_ty));
    assert!(fields[3].1.same(&ptr_ty));
}

#[test]
fn collected_fields_come_after_those_that_were_there() {
    let word = TypeHandle::integer(32, Signedness::Signed);
    let array = TypeHandle::array(word.clone(), 2);
    let mixed = TypeHandle::unnamed_struct(&vec![word.clone(), array]);
    let mut fields = vec![(vec![9], word.clone())];
    assert!(collect_simple_abi_fields(&mixed, &vec![7], &mut fields).is_err());
    assert_eq!(fields[0].0, vec![9]);
    assert!(fields[0].1.same(&word));
    assert!(collect_simple_abi_fields(&word, &vec![7], &mut fields).is_ok());
    assert_eq!(fields.last().unwrap().0, vec![7]);
}
