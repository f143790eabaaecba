//! Kernels: functions that are compiled on their own, for another device.
//!
//! A kernel is a function that is exported under a name with a prefix.

use crate::ir;
use crate::mir::{FnItem, Owner};
use crate::text;
use crate::text::{after, before, has_prefix};
use vstd::prelude::*;

verus! {

/// The prefix of the exported name of a kernel.
pub const KERNEL_EXPORT_PREFIX: &'static str = "__crabbit_kernel_";

/// The name that a function is exported under, where it is not mangled.
pub open spec fn plain_export(
    export_name: Option<Seq<char>>,
    no_mangle: bool,
    name: Seq<char>,
) -> Option<Seq<char>> {
    match export_name {
        Some(exported) => Some(exported),
        None => if no_mangle {
            Some(name)
        } else {
            None
        },
    }
}

/// The name that a kernel is exported under.
pub open spec fn kernel_export(
    export_name: Option<Seq<char>>,
    no_mangle: bool,
    name: Seq<char>,
) -> Option<Seq<char>> {
    match plain_export(export_name, no_mangle, name) {
        Some(exported) => if text::starts(exported, KERNEL_EXPORT_PREFIX@) {
            Some(exported)
        } else {
            None
        },
        None => None,
    }
}

fn copy_of(s: &String) -> (r: String)
    ensures
        r@ == s@,
{
    let text: &str = s.as_str();
    let r: String = before(text, text.unicode_len());
    assert(r@ =~= s@);
    r
}

/// The name that a kernel is exported under.
pub fn kernel_export_symbol(export_name: &Option<String>, no_mangle: bool, name: &String) -> (r: Option<
    String,
>)
    ensures
        ir::text(r) == kernel_export(ir::text(*export_name), no_mangle, name@),
{
    let exported: &String = match export_name {
        Some(exported) => exported,
        None => if no_mangle {
            name
        } else {
            return None;
        },
    };
    if has_prefix(exported.as_str(), KERNEL_EXPORT_PREFIX) {
        Some(copy_of(exported))
    } else {
        None
    }
}

/// Whether a function item is a kernel.
pub open spec fn is_kernel(item: FnItem) -> bool {
    kernel_export(ir::text(item.export_name), item.no_mangle, item.name@) is Some
}

/// Whether a function item is a kernel.
pub fn is_kernel_item(item: &FnItem) -> (r: bool)
    ensures
        r == is_kernel(*item),
{
    kernel_export_symbol(&item.export_name, item.no_mangle, &item.name).is_some()
}

/// Whether a function of the crate is a kernel.
pub open spec fn is_kernel_owner(owner: Owner) -> bool {
    kernel_export(ir::text(owner.export_name), owner.no_mangle, owner.name@) is Some
}

/// Whether a function of the crate is a kernel.
pub fn is_kernel_def(owner: &Owner) -> (r: bool)
    ensures
        r == is_kernel_owner(*owner),
{
    kernel_export_symbol(&owner.export_name, owner.no_mangle, &owner.name).is_some()
}

/// The name of a kernel's entry: its exported name without the prefix, where
/// anything is left, and its path where it has no such name.
pub open spec fn kernel_name(owner: Owner) -> Seq<char> {
    let exported = match kernel_export(
        ir::text(owner.export_name),
        owner.no_mangle,
        owner.name@,
    ) {
        Some(exported) => exported,
        None => owner.path@,
    };
    let prefix = KERNEL_EXPORT_PREFIX@;
    if text::starts(exported, prefix) && exported.len() > prefix.len() {
        exported.skip(prefix.len() as int)
    } else {
        exported
    }
}

/// The name of a kernel's entry.
pub fn kernel_entry_name(owner: &Owner) -> (r: String)
    ensures
        r@ == kernel_name(*owner),
{
    let exported: String = match kernel_export_symbol(
        &owner.export_name,
        owner.no_mangle,
        &owner.name,
    ) {
        Some(exported) => exported,
        None => copy_of(&owner.path),
    };
    let skipped: usize = KERNEL_EXPORT_PREFIX.unicode_len();
    if has_prefix(exported.as_str(), KERNEL_EXPORT_PREFIX) && exported.as_str().unicode_len()
        > skipped {
        after(exported.as_str(), skipped)
    } else {
        exported
    }
}

/// A kernel's entry name is its exported name without the prefix, so every
/// toolchain that compiles it agrees on one name.
pub proof fn law_kernel_name(owner: Owner, rest: Seq<char>)
    requires
        rest.len() > 0,
        plain_export(ir::text(owner.export_name), owner.no_mangle, owner.name@) == Some(
            KERNEL_EXPORT_PREFIX@ + rest,
        ),
    ensures
        is_kernel_owner(owner),
        kernel_name(owner) == rest,
{
    let exported = KERNEL_EXPORT_PREFIX@ + rest;
    assert(exported.take(KERNEL_EXPORT_PREFIX@.len() as int) =~= KERNEL_EXPORT_PREFIX@);
    assert(exported.skip(KERNEL_EXPORT_PREFIX@.len() as int) =~= rest);
}

} // verus!
