//! Functions on floats.

use crate::text;
use crate::text::{before, has_suffix, join, same};
use vstd::prelude::*;

verus! {

/// How a function on floats is carried out.
pub enum FloatMathLowering {
    /// By an instruction of the target.
    Inline(&'static str),
    /// By a function of another object, one for each width.
    Libcall { f32_symbol: &'static str, f64_symbol: &'static str },
}

/// How a function on floats is carried out.
pub enum FloatMath {
    Inline(Seq<char>),
    Libcall(Seq<char>, Seq<char>),
}

impl View for FloatMathLowering {
    type V = FloatMath;

    open spec fn view(&self) -> FloatMath {
        match *self {
            FloatMathLowering::Inline(op) => FloatMath::Inline(op@),
            FloatMathLowering::Libcall { f32_symbol, f64_symbol } => FloatMath::Libcall(
                f32_symbol@,
                f64_symbol@,
            ),
        }
    }
}

/// A text without an ending, where it has it.
pub open spec fn without(text: Seq<char>, ending: Seq<char>) -> Seq<char> {
    if text::ends(text, ending) {
        text.take(text.len() - ending.len())
    } else {
        text
    }
}

/// The name of a function on floats without the width that it is for.
pub open spec fn base_name(name: Seq<char>) -> Seq<char> {
    without(
        if text::ends(name, "f32"@) {
            without(name, "f32"@)
        } else {
            without(name, "f64"@)
        },
        "_"@,
    )
}

fn strip(name: &str, ending: &str) -> (r: String)
    ensures
        r@ == without(name@, ending@),
{
    let total: usize = name.unicode_len();
    if has_suffix(name, ending) {
        before(name, total - ending.unicode_len())
    } else {
        let r: String = before(name, total);
        assert(r@ =~= name@);
        r
    }
}

/// How the function on floats of a name is carried out.
pub open spec fn float_math(name: Seq<char>) -> Option<FloatMath> {
    let base = base_name(name);
    if base == "sqrt"@ {
        Some(FloatMath::Inline("sqrt"@))
    } else if base == "fabs"@ {
        Some(FloatMath::Inline("fabs"@))
    } else if base == "floor"@ {
        Some(FloatMath::Inline("floor"@))
    } else if base == "ceil"@ {
        Some(FloatMath::Inline("ceil"@))
    } else if base == "trunc"@ {
        Some(FloatMath::Inline("trunc"@))
    } else if base == "round"@ {
        Some(FloatMath::Inline("round"@))
    } else if base == "round_ties_even"@ {
        Some(FloatMath::Inline("rint"@))
    } else if base == "minnum"@ || base == "minimum_number_nsz"@ {
        Some(FloatMath::Inline("minnum"@))
    } else if base == "maxnum"@ || base == "maximum_number_nsz"@ {
        Some(FloatMath::Inline("maxnum"@))
    } else if base == "minimum"@ {
        Some(FloatMath::Inline("minimum"@))
    } else if base == "maximum"@ {
        Some(FloatMath::Inline("maximum"@))
    } else if base == "exp"@ {
        Some(FloatMath::Libcall("expf"@, "exp"@))
    } else if base == "exp2"@ {
        Some(FloatMath::Libcall("exp2f"@, "exp2"@))
    } else if base == "log"@ {
        Some(FloatMath::Libcall("logf"@, "log"@))
    } else if base == "log2"@ {
        Some(FloatMath::Libcall("log2f"@, "log2"@))
    } else if base == "log10"@ {
        Some(FloatMath::Libcall("log10f"@, "log10"@))
    } else if base == "sin"@ {
        Some(FloatMath::Libcall("sinf"@, "sin"@))
    } else if base == "cos"@ {
        Some(FloatMath::Libcall("cosf"@, "cos"@))
    } else if base == "pow"@ {
        Some(FloatMath::Libcall("powf"@, "pow"@))
    } else if base == "fma"@ || base == "fmuladd"@ {
        Some(FloatMath::Libcall("fmaf"@, "fma"@))
    } else if base == "copysign"@ {
        Some(FloatMath::Libcall("copysignf"@, "copysign"@))
    } else if base == "powi"@ {
        Some(FloatMath::Libcall("__powisf2"@, "__powidf2"@))
    } else {
        None
    }
}

/// How the function on floats of a name is carried out.
pub fn float_math_intrinsic(name: &str) -> (r: Option<FloatMathLowering>)
    ensures
        match r {
            Some(lowering) => float_math(name@) == Some(lowering@),
            None => float_math(name@) is None,
        },
{
    let narrow: String = if has_suffix(name, "f32") {
        strip(name, "f32")
    } else {
        strip(name, "f64")
    };
    let base: String = strip(narrow.as_str(), "_");
    let base: &str = base.as_str();
    if same(base, "sqrt") {
        Some(FloatMathLowering::Inline("sqrt"))
    } else if same(base, "fabs") {
        Some(FloatMathLowering::Inline("fabs"))
    } else if same(base, "floor") {
        Some(FloatMathLowering::Inline("floor"))
    } else if same(base, "ceil") {
        Some(FloatMathLowering::Inline("ceil"))
    } else if same(base, "trunc") {
        Some(FloatMathLowering::Inline("trunc"))
    } else if same(base, "round") {
        Some(FloatMathLowering::Inline("round"))
    } else if same(base, "round_ties_even") {
        Some(FloatMathLowering::Inline("rint"))
    } else if same(base, "minnum") || same(base, "minimum_number_nsz") {
        Some(FloatMathLowering::Inline("minnum"))
    } else if same(base, "maxnum") || same(base, "maximum_number_nsz") {
        Some(FloatMathLowering::Inline("maxnum"))
    } else if same(base, "minimum") {
        Some(FloatMathLowering::Inline("minimum"))
    } else if same(base, "maximum") {
        Some(FloatMathLowering::Inline("maximum"))
    } else if same(base, "exp") {
        Some(FloatMathLowering::Libcall { f32_symbol: "expf", f64_symbol: "exp" })
    } else if same(base, "exp2") {
        Some(FloatMathLowering::Libcall { f32_symbol: "exp2f", f64_symbol: "exp2" })
    } else if same(base, "log") {
        Some(FloatMathLowering::Libcall { f32_symbol: "logf", f64_symbol: "log" })
    } else if same(base, "log2") {
        Some(FloatMathLowering::Libcall { f32_symbol: "log2f", f64_symbol: "log2" })
    } else if same(base, "log10") {
        Some(FloatMathLowering::Libcall { f32_symbol: "log10f", f64_symbol: "log10" })
    } else if same(base, "sin") {
        Some(FloatMathLowering::Libcall { f32_symbol: "sinf", f64_symbol: "sin" })
    } else if same(base, "cos") {
        Some(FloatMathLowering::Libcall { f32_symbol: "cosf", f64_symbol: "cos" })
    } else if same(base, "pow") {
        Some(FloatMathLowering::Libcall { f32_symbol: "powf", f64_symbol: "pow" })
    } else if same(base, "fma") || same(base, "fmuladd") {
        Some(FloatMathLowering::Libcall { f32_symbol: "fmaf", f64_symbol: "fma" })
    } else if same(base, "copysign") {
        Some(FloatMathLowering::Libcall { f32_symbol: "copysignf", f64_symbol: "copysign" })
    } else if same(base, "powi") {
        Some(FloatMathLowering::Libcall { f32_symbol: "__powisf2", f64_symbol: "__powidf2" })
    } else {
        None
    }
}

/// The symbol that carries out a function on floats of a width.
pub open spec fn symbol_for(math: FloatMath, is_f32: bool) -> Seq<char> {
    match math {
        FloatMath::Inline(op) => "llvm_"@ + op + if is_f32 {
            "_f32"@
        } else {
            "_f64"@
        },
        FloatMath::Libcall(narrow, wide) => if is_f32 {
            narrow
        } else {
            wide
        },
    }
}

/// The symbol that carries out a function on floats of a width.
pub fn float_symbol(lowering: &FloatMathLowering, is_f32: bool) -> (r: String)
    ensures
        r@ == symbol_for(lowering@, is_f32),
{
    match lowering {
        FloatMathLowering::Inline(op) => {
            let start: String = join("llvm_", op);
            if is_f32 {
                join(start.as_str(), "_f32")
            } else {
                join(start.as_str(), "_f64")
            }
        },
        FloatMathLowering::Libcall { f32_symbol, f64_symbol } => if is_f32 {
            (*f32_symbol).to_owned()
        } else {
            (*f64_symbol).to_owned()
        },
    }
}

} // verus!
