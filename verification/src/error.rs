//! The errors that analysis and evaluation report.

use vstd::prelude::*;
use crate::span::SpanId;
use crate::value::{Value, ValueModel};

verus! {

/// A unary operator of the language.
#[derive(Copy, Clone, Debug, PartialEq, Eq, Structural)]
pub enum UnaryOp {
    Minus,
    Plus,
    BitwiseNot,
    LogicNot,
}

/// A binary operator of the language.
#[derive(Copy, Clone, Debug, PartialEq, Eq, Structural)]
pub enum BinaryOp {
    Add,
    Sub,
    Mul,
    Div,
    Rem,
    Shl,
    Shr,
    Lt,
    Le,
    Gt,
    Ge,
    Eq,
    Ne,
    In,
    BitwiseAnd,
    BitwiseOr,
    BitwiseXor,
    LogicAnd,
    LogicOr,
}

/// An error found while analyzing a program, before it runs.
#[derive(Clone, Debug)]
pub enum AnalyzeError {
    UnknownVariable { span: SpanId, name: String },
    SelfOutsideObject { self_span: SpanId },
    SuperOutsideObject { super_span: SpanId },
    DollarOutsideObject { dollar_span: SpanId },
    RepeatedLocalName { original_span: SpanId, repeated_span: SpanId, name: String },
    RepeatedFieldName { original_span: SpanId, repeated_span: SpanId, name: String },
    RepeatedParamName { original_span: SpanId, repeated_span: SpanId, name: String },
    PositionalArgAfterNamed { arg_span: SpanId },
    TextBlockAsImportPath { span: SpanId },
    ComputedImportPath { span: SpanId },
}

/// The error an import callback reports; it carries nothing more.
#[derive(Copy, Clone, Debug, PartialEq, Eq, Structural)]
pub struct ImportError;

/// The error a native function reports; it carries nothing more.
#[derive(Copy, Clone, Debug, PartialEq, Eq, Structural)]
pub struct NativeError;

/// One entry of the stack trace of an evaluation error.
#[derive(Clone, Debug, PartialEq, Eq)]
pub enum EvalStackTraceItem {
    Expr { span: SpanId },
    Call { span: Option<SpanId>, name: Option<String> },
    Variable { span: SpanId, name: String },
    ArrayItem { span: Option<SpanId>, index: usize },
    ObjectField { span: Option<SpanId>, name: String },
    CompareArrayItem { index: usize },
    CompareObjectField { name: String },
    ManifestArrayItem { index: usize },
    ManifestObjectField { name: String },
    Import { span: SpanId },
}

/// An evaluation error, with the stack trace that led to it.
#[derive(Clone, Debug, PartialEq, Eq)]
pub struct EvalError {
    pub stack_trace: Vec<EvalStackTraceItem>,
    pub kind: EvalErrorKind,
}

/// What went wrong during evaluation.
#[derive(Clone, Debug, PartialEq, Eq)]
pub enum EvalErrorKind {
    StackOverflow,
    InfiniteRecursion,
    InvalidIndexedType { span: SpanId, got_type: EvalErrorValueType },
    InvalidSlicedType { span: SpanId, got_type: EvalErrorValueType },
    SliceIndexOrStepIsNotNumber { span: SpanId, got_type: EvalErrorValueType },
    StringIndexIsNotNumber { span: SpanId, got_type: EvalErrorValueType },
    ArrayIndexIsNotNumber { span: SpanId, got_type: EvalErrorValueType },
    NumericIndexIsNotValid { span: SpanId, index: String },
    NumericIndexOutOfRange { span: SpanId, index: usize, length: usize },
    ObjectIndexIsNotString { span: SpanId, got_type: EvalErrorValueType },
    RepeatedFieldName { span: SpanId, name: String },
    FieldNameIsNotString { span: SpanId, got_type: EvalErrorValueType },
    UnknownObjectField { span: SpanId, field_name: String },
    FieldOfNonObject { span: SpanId },
    SuperWithoutSuperObject { span: SpanId },
    ForSpecValueIsNotArray { span: SpanId, got_type: EvalErrorValueType },
    CondIsNotBool { span: SpanId, got_type: EvalErrorValueType },
    CalleeIsNotFunction { span: Option<SpanId>, got_type: EvalErrorValueType },
    TooManyCallArgs { span: Option<SpanId>, num_params: usize },
    UnknownCallParam { span: Option<SpanId>, param_name: String },
    RepeatedCallParam { span: Option<SpanId>, param_name: String },
    CallParamNotBound { span: Option<SpanId>, param_name: String },
    NativeCallFailed,
    InvalidUnaryOpType { span: SpanId, op: UnaryOp, rhs_type: EvalErrorValueType },
    InvalidBinaryOpTypes {
        span: Option<SpanId>,
        op: BinaryOp,
        lhs_type: EvalErrorValueType,
        rhs_type: EvalErrorValueType,
    },
    NumberOverflow { span: Option<SpanId> },
    NumberNan { span: Option<SpanId> },
    DivByZero { span: Option<SpanId> },
    ShiftByNegative { span: Option<SpanId> },
    InvalidStdFuncArgType {
        func_name: String,
        arg_index: usize,
        expected_types: Vec<EvalErrorValueType>,
        got_type: EvalErrorValueType,
    },
    AssertFailed { span: SpanId, message: Option<String> },
    AssertEqualFailed { lhs: String, rhs: String },
    ExplicitError { span: SpanId, message: String },
    ImportFailed { span: SpanId, path: String },
    UnknownExtVar { name: String },
    ManifestFunction,
    CompareNullInequality,
    CompareBooleanInequality,
    CompareObjectInequality,
    CompareFunctions,
    CompareDifferentTypesInequality { lhs_type: EvalErrorValueType, rhs_type: EvalErrorValueType },
    PrimitiveEqualsNonPrimitive { got_type: EvalErrorValueType },
    Other { span: Option<SpanId>, message: String },
}

/// The type of a value, as errors name it.
#[derive(Copy, Clone, Debug, PartialEq, Eq, Structural)]
pub enum EvalErrorValueType {
    Null,
    Bool,
    Number,
    String,
    Array,
    Object,
    Function,
}

/// Whether `e` is the error of a standard-library function that got an
/// argument of the wrong type.
pub open spec fn is_arg_type_error(
    e: EvalErrorKind,
    func_name: Seq<char>,
    arg_index: int,
    expected: Seq<EvalErrorValueType>,
    got: EvalErrorValueType,
) -> bool {
    match e {
        EvalErrorKind::InvalidStdFuncArgType { func_name: f, arg_index: a, expected_types: t, got_type: g } => f@
            == func_name && a == arg_index && t@ == expected && g == got,
        _ => false,
    }
}

/// Whether `e` is an error that carries only a message, and that message.
pub open spec fn is_other_error(e: EvalErrorKind, message: Seq<char>) -> bool {
    match e {
        EvalErrorKind::Other { span: None, message: m } => m@ == message,
        _ => false,
    }
}

/// The error of a standard-library function that got an argument of the
/// wrong type.
pub fn arg_type_error(func_name: &str, arg_index: usize, expected: EvalErrorValueType, got: EvalErrorValueType) -> (res:
    EvalErrorKind)
    ensures
        is_arg_type_error(res, func_name@, arg_index as int, seq![expected], got),
{
    let mut expected_types: Vec<EvalErrorValueType> = Vec::new();
    expected_types.push(expected);
    proof {
        assert(expected_types@ =~= seq![expected]);
    }
    EvalErrorKind::InvalidStdFuncArgType {
        func_name: String::from_str(func_name),
        arg_index,
        expected_types,
        got_type: got,
    }
}

/// An error that carries only a message.
pub fn other_error(message: String) -> (res: EvalErrorKind)
    ensures
        is_other_error(res, message@),
{
    EvalErrorKind::Other { span: None, message }
}

/// The type of a value model.
pub open spec fn type_of(v: ValueModel) -> EvalErrorValueType {
    match v {
        ValueModel::Null => EvalErrorValueType::Null,
        ValueModel::Bool(_) => EvalErrorValueType::Bool,
        ValueModel::Number(_) => EvalErrorValueType::Number,
        ValueModel::String(_) => EvalErrorValueType::String,
        ValueModel::Array(_) => EvalErrorValueType::Array,
        ValueModel::Object(_) => EvalErrorValueType::Object,
    }
}

/// The name of a type as error messages write it.
pub open spec fn value_type_text(t: EvalErrorValueType) -> Seq<char> {
    match t {
        EvalErrorValueType::Null => seq!['n', 'u', 'l', 'l'],
        EvalErrorValueType::Bool => seq!['b', 'o', 'o', 'l', 'e', 'a', 'n'],
        EvalErrorValueType::Number => seq!['n', 'u', 'm', 'b', 'e', 'r'],
        EvalErrorValueType::String => seq!['s', 't', 'r', 'i', 'n', 'g'],
        EvalErrorValueType::Array => seq!['a', 'r', 'r', 'a', 'y'],
        EvalErrorValueType::Object => seq!['o', 'b', 'j', 'e', 'c', 't'],
        EvalErrorValueType::Function => seq!['f', 'u', 'n', 'c', 't', 'i', 'o', 'n'],
    }
}

impl EvalErrorValueType {
    /// The type of a value.
    pub fn from_value(value: &Value) -> (res: Self)
        ensures
            res == type_of(value@),
    {
        match value {
            Value::Null => Self::Null,
            Value::Bool(_) => Self::Bool,
            Value::Number(_) => Self::Number,
            Value::String(_) => Self::String,
            Value::Array(_) => Self::Array,
            Value::Object(_) => Self::Object,
        }
    }

    /// The name of the type, as error messages write it.
    pub fn to_str(self) -> (res: &'static str)
        ensures
            res@ == value_type_text(self),
    {
        match self {
            Self::Null => {
                proof {
                    reveal_strlit("null");
                }
                "null"
            },
            Self::Bool => {
                proof {
                    reveal_strlit("boolean");
                }
                "boolean"
            },
            Self::Number => {
                proof {
                    reveal_strlit("number");
                }
                "number"
            },
            Self::String => {
                proof {
                    reveal_strlit("string");
                }
                "string"
            },
            Self::Array => {
                proof {
                    reveal_strlit("array");
                }
                "array"
            },
            Self::Object => {
                proof {
                    reveal_strlit("object");
                }
                "object"
            },
            Self::Function => {
                proof {
                    reveal_strlit("function");
                }
                "function"
            },
        }
    }
}

} // verus!
