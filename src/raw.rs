//! Actions as they stand on the wire: one value per decoded instruction.
//!
//! Composite actions (function definitions, `with`, `try`) carry the sizes of their
//! bodies, never the bodies themselves. Floating-point push values are kept as their
//! IEEE-754 bit patterns.
use vstd::prelude::*;

verus! {

#[derive(Clone, Debug, PartialEq, Eq)]
pub struct GotoFrame {
    pub frame: u16,
}

#[derive(Clone, Debug, PartialEq, Eq)]
pub struct GetUrl {
    pub url: String,
    pub target: String,
}

#[derive(Clone, Debug, PartialEq, Eq)]
pub struct StoreRegister {
    pub register: u8,
}

#[derive(Clone, Debug, PartialEq, Eq)]
pub struct StrictMode {
    pub is_strict: bool,
}

#[derive(Clone, Debug, PartialEq, Eq)]
pub struct ConstantPool {
    pub pool: Vec<String>,
}

#[derive(Clone, Debug, PartialEq, Eq)]
pub struct WaitForFrame {
    pub frame: u16,
    pub skip: u8,
}

#[derive(Clone, Debug, PartialEq, Eq)]
pub struct SetTarget {
    pub target_name: String,
}

#[derive(Clone, Debug, PartialEq, Eq)]
pub struct GotoLabel {
    pub label: String,
}

#[derive(Clone, Debug, PartialEq, Eq)]
pub struct WaitForFrame2 {
    pub skip: u8,
}

/// A parameter of a `DefineFunction2`: the register it is stored in, and its name.
#[derive(Clone, Debug, PartialEq, Eq)]
pub struct Parameter {
    pub register: u8,
    pub name: String,
}

#[derive(Clone, Debug, PartialEq, Eq)]
pub struct DefineFunction2 {
    pub name: String,
    pub register_count: u8,
    pub preload_this: bool,
    pub suppress_this: bool,
    pub preload_arguments: bool,
    pub suppress_arguments: bool,
    pub preload_super: bool,
    pub suppress_super: bool,
    pub preload_root: bool,
    pub preload_parent: bool,
    pub preload_global: bool,
    pub parameters: Vec<Parameter>,
    pub body_size: u16,
}

/// Where a `catch` block stores the thrown value.
#[derive(Clone, Debug, PartialEq, Eq)]
pub enum CatchTarget {
    Register(u8),
    Variable(String),
}

#[derive(Clone, Debug, PartialEq, Eq)]
pub struct CatchBlock {
    pub target: CatchTarget,
    pub size: u16,
}

#[derive(Clone, Debug, PartialEq, Eq)]
pub struct Try {
    pub try_size: u16,
    pub catch: Option<CatchBlock>,
    pub finally: Option<u16>,
}

#[derive(Clone, Debug, PartialEq, Eq)]
pub struct With {
    pub size: u16,
}

/// A value pushed by a `Push` action.
#[derive(Clone, Debug, PartialEq, Eq)]
pub enum PushValue {
    String(String),
    /// The IEEE-754 bits of a single-precision float.
    Float32(u32),
    Null,
    Undefined,
    Register(u8),
    Boolean(bool),
    /// The IEEE-754 bits of a double-precision float.
    Float64(u64),
    Sint32(i32),
    Constant(u16),
}

#[derive(Clone, Debug, PartialEq, Eq)]
pub struct Push {
    pub values: Vec<PushValue>,
}

#[derive(Clone, Debug, PartialEq, Eq)]
pub struct Jump {
    pub offset: i16,
}

#[derive(Clone, Copy, Debug, PartialEq, Eq)]
pub enum GetUrl2Method {
    NoMethod,
    Get,
    Post,
}

#[derive(Clone, Debug, PartialEq, Eq)]
pub struct GetUrl2 {
    pub method: GetUrl2Method,
    pub load_target: bool,
    pub load_variables: bool,
}

#[derive(Clone, Debug, PartialEq, Eq)]
pub struct DefineFunction {
    pub name: String,
    pub parameters: Vec<String>,
    pub body_size: u16,
}

#[derive(Clone, Debug, PartialEq, Eq)]
pub struct If {
    pub offset: i16,
}

#[derive(Clone, Debug, PartialEq, Eq)]
pub struct GotoFrame2 {
    pub play: bool,
    pub scene_bias: u16,
}

/// An action whose code the decoder does not know; its body is kept as it stands.
#[derive(Clone, Debug, PartialEq, Eq)]
pub struct Raw {
    pub code: u8,
    pub data: Vec<u8>,
}

/// An action whose body could not be decoded.
#[derive(Clone, Debug, PartialEq, Eq)]
pub struct Error {
    pub error: Option<String>,
}

#[derive(Clone, Debug, PartialEq, Eq)]
pub enum Action {
    Add,
    Add2,
    And,
    AsciiToChar,
    BitAnd,
    BitLShift,
    BitOr,
    BitRShift,
    BitURShift,
    BitXor,
    Call,
    CallFunction,
    CallMethod,
    CastOp,
    CharToAscii,
    CloneSprite,
    ConstantPool(ConstantPool),
    Decrement,
    DefineFunction(DefineFunction),
    DefineFunction2(DefineFunction2),
    DefineLocal,
    DefineLocal2,
    Delete,
    Delete2,
    Divide,
    End,
    EndDrag,
    Enumerate,
    Enumerate2,
    Equals,
    Equals2,
    Error(Error),
    Extends,
    FsCommand2,
    GetMember,
    GetProperty,
    GetTime,
    GetUrl(GetUrl),
    GetUrl2(GetUrl2),
    GetVariable,
    GotoFrame(GotoFrame),
    GotoFrame2(GotoFrame2),
    GotoLabel(GotoLabel),
    Greater,
    If(If),
    ImplementsOp,
    Increment,
    InitArray,
    InitObject,
    InstanceOf,
    Jump(Jump),
    Less,
    Less2,
    MbAsciiToChar,
    MbCharToAscii,
    MbStringExtract,
    MbStringLength,
    Modulo,
    Multiply,
    NewMethod,
    NewObject,
    NextFrame,
    Not,
    Or,
    Play,
    Pop,
    PrevFrame,
    Push(Push),
    PushDuplicate,
    RandomNumber,
    Raw(Raw),
    RemoveSprite,
    Return,
    SetMember,
    SetProperty,
    SetTarget(SetTarget),
    SetTarget2,
    SetVariable,
    StackSwap,
    StartDrag,
    Stop,
    StopSounds,
    StoreRegister(StoreRegister),
    StrictEquals,
    StrictMode(StrictMode),
    StringAdd,
    StringEquals,
    StringExtract,
    StringGreater,
    StringLength,
    StringLess,
    Subtract,
    TargetPath,
    Throw,
    ToInteger,
    ToNumber,
    ToString,
    ToggleQuality,
    Trace,
    Try(Try),
    TypeOf,
    WaitForFrame(WaitForFrame),
    WaitForFrame2(WaitForFrame2),
    With(With),
}

} // verus!
