//! How the parameters of a function arrive.

use crate::abi;
use crate::abi::{arg_abi_for_ty, AbiView, ArgAbi, ParamAbi};
use crate::convert;
use crate::convert::{convert_immediate_ty, convert_return_ty, convert_ty, llvm_ptr_ty};
use crate::error::Failure;
use crate::mir::Body;
use crate::place;
use crate::ty::{TyId, TyKind, TyTable};
use crate::types;
use crate::types::TypeHandle;
use vstd::prelude::*;

verus! {

/// How one parameter of a function is passed.
pub enum ParamView {
    Single(AbiView),
    Spread(Seq<(TypeHandle, AbiView)>),
}

/// How the elements of a tuple are passed.
pub open spec fn elements_view(elements: Seq<(TypeHandle, ArgAbi)>) -> Seq<(TypeHandle, AbiView)> {
    elements.map_values(|element: (TypeHandle, ArgAbi)| (element.0, element.1@))
}

impl View for ParamAbi {
    type V = ParamView;

    open spec fn view(&self) -> ParamView {
        match *self {
            ParamAbi::Single(abi) => ParamView::Single(abi@),
            ParamAbi::Spread(elements) => ParamView::Spread(elements_view(elements@)),
        }
    }
}

/// The types of the arguments that pass the first elements of a tuple.
pub open spec fn element_inputs(elements: Seq<(TypeHandle, AbiView)>, count: nat) -> Seq<TypeHandle>
    decreases count,
{
    if count == 0 {
        Seq::empty()
    } else {
        element_inputs(elements, (count - 1) as nat) + elements[count - 1].1.inputs()
    }
}

impl ParamView {
    /// The types of the arguments that pass the parameter.
    pub open spec fn inputs(self) -> Seq<TypeHandle> {
        match self {
            ParamView::Single(abi) => abi.inputs(),
            ParamView::Spread(elements) => element_inputs(elements, elements.len()),
        }
    }
}

/// A parameter: its local, the type it is stored in, and how it is passed.
pub struct Param {
    pub local: usize,
    pub storage: TypeHandle,
    pub abi: ParamAbi,
}

/// A parameter.
pub struct Parameter {
    pub local: usize,
    pub storage: TypeHandle,
    pub abi: ParamView,
}

impl View for Param {
    type V = Parameter;

    open spec fn view(&self) -> Parameter {
        Parameter { local: self.local, storage: self.storage, abi: self.abi@ }
    }
}

/// Parameters.
pub open spec fn params_view(params: Seq<Param>) -> Seq<Parameter> {
    params.map_values(|param: Param| param@)
}

/// The types of the arguments that pass the first parameters.
pub open spec fn all_inputs(params: Seq<Parameter>, count: nat) -> Seq<TypeHandle>
    decreases count,
{
    if count == 0 {
        Seq::empty()
    } else {
        all_inputs(params, (count - 1) as nat) + params[count - 1].abi.inputs()
    }
}

/// The inputs of the first parameters are those of longer lists too.
pub proof fn lemma_inputs(first: Seq<Parameter>, second: Seq<Parameter>, count: nat)
    requires
        count <= first.len(),
        count <= second.len(),
        forall|i: int| 0 <= i < count ==> first[i] == second[i],
    ensures
        all_inputs(first, count) == all_inputs(second, count),
    decreases count,
{
    if count > 0 {
        lemma_inputs(first, second, (count - 1) as nat);
    }
}

/// The inputs of the first elements are those of longer lists too.
proof fn lemma_element_inputs(
    first: Seq<(TypeHandle, AbiView)>,
    second: Seq<(TypeHandle, AbiView)>,
    count: nat,
)
    requires
        count <= first.len(),
        count <= second.len(),
        forall|i: int| 0 <= i < count ==> first[i] == second[i],
    ensures
        element_inputs(first, count) == element_inputs(second, count),
    decreases count,
{
    if count > 0 {
        lemma_element_inputs(first, second, (count - 1) as nat);
    }
}

/// How an element of a spread tuple is passed, and the type it is stored in.
pub open spec fn element(table: TyTable, ty: TyId) -> Result<(TypeHandle, AbiView), Failure> {
    match convert::converted(table, ty) {
        Err(failure) => Err(failure),
        Ok(storage) => match convert::immediate(table, ty) {
            Err(failure) => Err(failure),
            Ok(immediate) => match abi::arg_abi(immediate) {
                Err(failure) => Err(failure),
                Ok(abi) => Ok((storage, abi)),
            },
        },
    }
}

/// How the first elements of a spread tuple are passed.
pub open spec fn spread(table: TyTable, elems: Seq<TyId>, count: nat) -> Result<
    Seq<(TypeHandle, AbiView)>,
    Failure,
>
    decreases count,
{
    if count == 0 {
        Ok(Seq::empty())
    } else {
        match spread(table, elems, (count - 1) as nat) {
            Err(failure) => Err(failure),
            Ok(elements) => match element(table, elems[count - 1]) {
                Err(failure) => Err(failure),
                Ok(next) => Ok(elements.push(next)),
            },
        }
    }
}

proof fn lemma_spread_fail(table: TyTable, elems: Seq<TyId>, from: nat, to: nat)
    requires
        from <= to,
        spread(table, elems, from) is Err,
    ensures
        spread(table, elems, to) == spread(table, elems, from),
    decreases to,
{
    if from < to {
        lemma_spread_fail(table, elems, from, (to - 1) as nat);
    }
}

/// How a local that is a parameter is passed.
pub open spec fn parameter(table: TyTable, body: Body, local: usize) -> Result<
    Parameter,
    Failure,
> {
    match place::local_ty(body.locals@, local) {
        Err(failure) => Err(failure),
        Ok(ty) => match convert::converted(table, ty) {
            Err(failure) => Err(failure),
            Ok(storage) => if body.spread_arg == Some(local) {
                match table.kind(table.runtime(ty)) {
                    TyKind::Tuple(elems) => match spread(table, elems@, elems@.len()) {
                        Err(failure) => Err(failure),
                        Ok(elements) => Ok(
                            Parameter { local, storage, abi: ParamView::Spread(elements) },
                        ),
                    },
                    _ => Err(Failure::SpreadTuple(ty)),
                }
            } else {
                match convert::immediate(table, ty) {
                    Err(failure) => Err(failure),
                    Ok(immediate) => match abi::arg_abi(immediate) {
                        Err(failure) => Err(failure),
                        Ok(abi) => Ok(Parameter { local, storage, abi: ParamView::Single(abi) }),
                    },
                }
            },
        },
    }
}

/// How the first parameters of a function are passed. They are the locals
/// after the first one.
pub open spec fn parameters(table: TyTable, body: Body, count: nat) -> Result<
    Seq<Parameter>,
    Failure,
>
    decreases count,
{
    if count == 0 {
        Ok(Seq::empty())
    } else {
        match parameters(table, body, (count - 1) as nat) {
            Err(failure) => Err(failure),
            Ok(params) => if count > usize::MAX {
                Err(Failure::TooLarge)
            } else {
                match parameter(table, body, count as usize) {
                    Err(failure) => Err(failure),
                    Ok(next) => Ok(params.push(next)),
                }
            },
        }
    }
}

/// There are as many parameters as asked for, and a failure among the first
/// is one of all.
pub proof fn lemma_parameters(table: TyTable, body: Body, from: nat, to: nat)
    requires
        from <= to,
    ensures
        parameters(table, body, from) is Err ==> parameters(table, body, to) == parameters(
            table,
            body,
            from,
        ),
        parameters(table, body, to) matches Ok(params) ==> params.len() == to,
    decreases to,
{
    if from < to {
        lemma_parameters(table, body, from, (to - 1) as nat);
    } else if to > 0 {
        lemma_parameters(table, body, (from - 1) as nat, (to - 1) as nat);
    }
}

/// The parameters and the type of a function.
pub open spec fn signature(table: TyTable, body: Body) -> Result<
    (Seq<Parameter>, TypeHandle),
    Failure,
> {
    match parameters(table, body, body.arg_count as nat) {
        Err(failure) => Err(failure),
        Ok(params) => match place::local_ty(body.locals@, 0) {
            Err(failure) => Err(failure),
            Ok(ty) => match convert::returned(table, ty) {
                Err(failure) => Err(failure),
                Ok(result) => Ok(
                    (params, types::function_of(all_inputs(params, params.len()), result)),
                ),
            },
        },
    }
}

/// Appends the types of the arguments that pass a value.
pub fn append_inputs(abi: &ArgAbi, inputs: &mut Vec<TypeHandle>)
    ensures
        final(inputs)@ == old(inputs)@ + abi@.inputs(),
{
    match abi {
        ArgAbi::Leaves(leaves) => {
            let ghost want = abi@.inputs();
            let mut i: usize = 0;
            assert(inputs@ =~= old(inputs)@ + want.take(0));
            while i < leaves.len()
                invariant
                    i <= leaves@.len(),
                    want == (AbiView::Leaves(abi::leaves_view(leaves@))).inputs(),
                    want.len() == leaves@.len(),
                    inputs@ == old(inputs)@ + want.take(i as int),
                decreases leaves@.len() - i,
            {
                let ty: TypeHandle = leaves[i].1.clone();
                assert(ty == want[i as int]);
                inputs.push(ty);
                assert(inputs@ =~= old(inputs)@ + want.take(i + 1));
                i = i + 1;
            }
            assert(want.take(i as int) =~= want);
        },
        ArgAbi::Indirect => {
            inputs.push(llvm_ptr_ty());
            assert(inputs@ =~= old(inputs)@ + seq![types::pointer()]);
        },
    }
}

fn element_of(table: &TyTable, ty: TyId) -> (r: Result<(TypeHandle, ArgAbi), Failure>)
    requires
        table.wf(),
        table.has(ty),
    ensures
        match element(*table, ty) {
            Ok((storage, abi)) => r matches Ok((found, passed)) && found == storage && passed@
                == abi,
            Err(failure) => r matches Err(other) && other == failure,
        },
{
    let storage: TypeHandle = convert_ty(table, ty)?;
    let immediate: TypeHandle = convert_immediate_ty(table, ty)?;
    let abi: ArgAbi = arg_abi_for_ty(&immediate)?;
    Ok((storage, abi))
}

fn spread_of(table: &TyTable, elems: &Vec<TyId>, inputs: &mut Vec<TypeHandle>) -> (r: Result<
    Vec<(TypeHandle, ArgAbi)>,
    Failure,
>)
    requires
        table.wf(),
        forall|i: int| 0 <= i < elems@.len() ==> table.has(#[trigger] elems@[i]),
    ensures
        match spread(*table, elems@, elems@.len()) {
            Ok(want) => r matches Ok(found) && elements_view(found@) == want && final(inputs)@
                == old(inputs)@ + element_inputs(want, want.len()),
            Err(failure) => r matches Err(other) && other == failure,
        },
{
    let mut elements: Vec<(TypeHandle, ArgAbi)> = Vec::new();
    let mut i: usize = 0;
    assert(elements_view(elements@) =~= Seq::empty());
    assert(inputs@ =~= old(inputs)@ + Seq::<TypeHandle>::empty());
    while i < elems.len()
        invariant
            i <= elems@.len(),
            table.wf(),
            forall|k: int| 0 <= k < elems@.len() ==> table.has(#[trigger] elems@[k]),
            spread(*table, elems@, i as nat) == Ok::<Seq<(TypeHandle, AbiView)>, Failure>(
                elements_view(elements@),
            ),
            elements@.len() == i,
            inputs@ == old(inputs)@ + element_inputs(elements_view(elements@), i as nat),
        decreases elems@.len() - i,
    {
        let ghost so_far = elements_view(elements@);
        proof {
            if spread(*table, elems@, (i + 1) as nat) is Err {
                lemma_spread_fail(*table, elems@, (i + 1) as nat, elems@.len());
            }
        }
        let next: (TypeHandle, ArgAbi) = element_of(table, elems[i])?;
        append_inputs(&next.1, inputs);
        let ghost view = (next.0, next.1@);
        elements.push(next);
        proof {
            let all = elements_view(elements@);
            assert(all =~= so_far.push(view));
            lemma_element_inputs(so_far, all, i as nat);
            assert(inputs@ =~= old(inputs)@ + element_inputs(all, (i + 1) as nat));
        }
        i = i + 1;
    }
    Ok(elements)
}

fn param_of(table: &TyTable, body: &Body, local: usize, inputs: &mut Vec<TypeHandle>) -> (r: Result<
    Param,
    Failure,
>)
    requires
        table.wf(),
        place::locals_wf(*table, body.locals@),
    ensures
        match parameter(*table, *body, local) {
            Ok(want) => r matches Ok(found) && found@ == want && final(inputs)@ == old(inputs)@
                + want.abi.inputs(),
            Err(failure) => r matches Err(other) && other == failure,
        },
{
    if local >= body.locals.len() {
        return Err(Failure::UnknownLocal(local));
    }
    let ty: TyId = body.locals[local];
    let storage: TypeHandle = convert_ty(table, ty)?;
    let is_spread: bool = match body.spread_arg {
        Some(spread_arg) => spread_arg == local,
        None => false,
    };
    if is_spread {
        let runtime: TyId = table.runtime_ty(ty);
        proof {
            assert(table.ty_wf(runtime));
        }
        match &table.types[runtime.0].kind {
            TyKind::Tuple(elems) => {
                let elements: Vec<(TypeHandle, ArgAbi)> = spread_of(table, elems, inputs)?;
                Ok(Param { local, storage, abi: ParamAbi::Spread(elements) })
            },
            _ => Err(Failure::SpreadTuple(ty)),
        }
    } else {
        let immediate: TypeHandle = convert_immediate_ty(table, ty)?;
        let abi: ArgAbi = arg_abi_for_ty(&immediate)?;
        append_inputs(&abi, inputs);
        Ok(Param { local, storage, abi: ParamAbi::Single(abi) })
    }
}

/// The parameters and the type of a function.
pub fn signature_of(table: &TyTable, body: &Body) -> (r: Result<(Vec<Param>, TypeHandle), Failure>)
    requires
        table.wf(),
        place::locals_wf(*table, body.locals@),
    ensures
        match signature(*table, *body) {
            Ok((params, ty)) => r matches Ok((found, found_ty)) && params_view(found@) == params
                && found_ty == ty,
            Err(failure) => r matches Err(other) && other == failure,
        },
{
    let mut inputs: Vec<TypeHandle> = Vec::new();
    let mut params: Vec<Param> = Vec::new();
    let mut i: usize = 0;
    assert(params_view(params@) =~= Seq::empty());
    assert(inputs@ =~= Seq::<TypeHandle>::empty());
    while i < body.arg_count
        invariant
            i <= body.arg_count,
            table.wf(),
            place::locals_wf(*table, body.locals@),
            parameters(*table, *body, i as nat) == Ok::<Seq<Parameter>, Failure>(
                params_view(params@),
            ),
            params@.len() == i,
            inputs@ == all_inputs(params_view(params@), i as nat),
        decreases body.arg_count - i,
    {
        let ghost so_far = params_view(params@);
        proof {
            lemma_parameters(*table, *body, (i + 1) as nat, body.arg_count as nat);
        }
        let next: Param = param_of(table, body, i + 1, &mut inputs)?;
        let ghost view = next@;
        params.push(next);
        proof {
            let all = params_view(params@);
            assert(all =~= so_far.push(view));
            lemma_inputs(so_far, all, i as nat);
        }
        i = i + 1;
    }
    if body.locals.len() == 0 {
        return Err(Failure::UnknownLocal(0));
    }
    let results: Vec<TypeHandle> = match convert_return_ty(table, body.locals[0])? {
        Some(ty) => {
            let list: Vec<TypeHandle> = vec![ty];
            assert(list@ =~= seq![ty]);
            list
        },
        None => {
            let list: Vec<TypeHandle> = Vec::new();
            assert(list@ =~= Seq::<TypeHandle>::empty());
            list
        },
    };
    let ty: TypeHandle = TypeHandle::function(&inputs, &results);
    Ok((params, ty))
}

} // verus!
