//! Control-flow graphs: labelled basic blocks whose branches name their targets.
//!
//! A graph is a tree of owning values; a branch refers to its target by label only.
use vstd::prelude::*;
use vstd::string::StringExecFns;
use crate::raw;

verus! {

/// The label of a block: the layer that owns it and the offset where it starts.
/// Its text form is `l{layer}_{offset}`.
#[derive(Clone, Copy, Debug, PartialEq, Eq, Structural)]
pub struct CfgLabel {
    pub layer: u64,
    pub offset: usize,
}

/// A control-flow graph: its blocks in ascending order of their offsets, the entry block
/// first.
#[derive(Debug, PartialEq, Eq)]
pub struct Cfg {
    pub blocks: Vec<CfgBlock>,
}

/// A basic block: straight-line actions, then the flow that ends it.
#[derive(Debug, PartialEq, Eq)]
pub struct CfgBlock {
    pub label: CfgLabel,
    pub actions: Vec<Action>,
    pub flow: CfgFlow,
}

#[derive(Debug, PartialEq, Eq)]
pub enum CfgFlow {
    /// Continue at `next`; `None` leaves the graph.
    Simple(Simple),
    If(If),
    Return,
    Throw,
    Error(raw::Error),
    With(With),
    Try(Try),
    WaitForFrame(WaitForFrame),
    WaitForFrame2(WaitForFrame2),
}

#[derive(Clone, Debug, PartialEq, Eq)]
pub struct Simple {
    pub next: Option<CfgLabel>,
}

#[derive(Clone, Debug, PartialEq, Eq)]
pub struct If {
    pub true_target: Option<CfgLabel>,
    pub false_target: Option<CfgLabel>,
}

#[derive(Debug, PartialEq, Eq)]
pub struct With {
    pub body: Cfg,
}

#[derive(Debug, PartialEq, Eq)]
pub struct CatchBlock {
    pub target: raw::CatchTarget,
    pub body: Cfg,
}

#[derive(Debug, PartialEq, Eq)]
pub struct Try {
    pub try_body: Cfg,
    pub catch: Option<CatchBlock>,
    pub finally: Option<Cfg>,
}

#[derive(Clone, Debug, PartialEq, Eq)]
pub struct WaitForFrame {
    pub frame: u16,
    pub loading_target: Option<CfgLabel>,
    pub ready_target: Option<CfgLabel>,
}

#[derive(Clone, Debug, PartialEq, Eq)]
pub struct WaitForFrame2 {
    pub loading_target: Option<CfgLabel>,
    pub ready_target: Option<CfgLabel>,
}

#[derive(Debug, PartialEq, Eq)]
pub struct DefineFunction {
    pub name: String,
    pub parameters: Vec<String>,
    pub body: Cfg,
}

#[derive(Debug, PartialEq, Eq)]
pub struct DefineFunction2 {
    pub name: String,
    pub register_count: u8,
    pub preload_this: bool,
    pub suppress_this: bool,
    pub preload_arguments: bool,
    pub suppress_arguments: bool,
    pub preload_super: bool,
    pub suppress_super: bool,
    pub preload_root: bool,
    pub preload_parent: bool,
    pub preload_global: bool,
    pub parameters: Vec<raw::Parameter>,
    pub body: Cfg,
}

/// An action inside a block. Actions that change the flow of control are not among
/// them: they end blocks, as a [`CfgFlow`].
#[derive(Debug, PartialEq, Eq)]
pub enum Action {
    Add,
    Add2,
    And,
    AsciiToChar,
    BitAnd,
    BitLShift,
    BitOr,
    BitRShift,
    BitURShift,
    BitXor,
    Call,
    CallFunction,
    CallMethod,
    CastOp,
    CharToAscii,
    CloneSprite,
    ConstantPool(raw::ConstantPool),
    Decrement,
    DefineFunction(DefineFunction),
    DefineFunction2(DefineFunction2),
    DefineLocal,
    DefineLocal2,
    Delete,
    Delete2,
    Divide,
    EndDrag,
    Enumerate,
    Enumerate2,
    Equals,
    Equals2,
    Extends,
    FsCommand2,
    GetMember,
    GetProperty,
    GetTime,
    GetUrl(raw::GetUrl),
    GetUrl2(raw::GetUrl2),
    GetVariable,
    GotoFrame(raw::GotoFrame),
    GotoFrame2(raw::GotoFrame2),
    GotoLabel(raw::GotoLabel),
    Greater,
    ImplementsOp,
    Increment,
    InitArray,
    InitObject,
    InstanceOf,
    Less,
    Less2,
    MbAsciiToChar,
    MbCharToAscii,
    MbStringExtract,
    MbStringLength,
    Modulo,
    Multiply,
    NewMethod,
    NewObject,
    NextFrame,
    Not,
    Or,
    Play,
    Pop,
    PrevFrame,
    Push(raw::Push),
    PushDuplicate,
    RandomNumber,
    Raw(raw::Raw),
    RemoveSprite,
    SetMember,
    SetProperty,
    SetTarget(raw::SetTarget),
    SetTarget2,
    SetVariable,
    StackSwap,
    StartDrag,
    Stop,
    StopSounds,
    StoreRegister(raw::StoreRegister),
    StrictEquals,
    StrictMode(raw::StrictMode),
    StringAdd,
    StringEquals,
    StringExtract,
    StringGreater,
    StringLength,
    StringLess,
    Subtract,
    TargetPath,
    ToInteger,
    ToNumber,
    ToString,
    ToggleQuality,
    Trace,
    TypeOf,
}

/// The labels that the flow `f` names.
pub open spec fn flow_targets(f: CfgFlow) -> Seq<Option<CfgLabel>> {
    match f {
        CfgFlow::Simple(x) => seq![x.next],
        CfgFlow::If(x) => seq![x.true_target, x.false_target],
        CfgFlow::WaitForFrame(x) => seq![x.loading_target, x.ready_target],
        CfgFlow::WaitForFrame2(x) => seq![x.loading_target, x.ready_target],
        _ => seq![],
    }
}

/// Some block of `c` has the label `l`.
pub open spec fn names_block(c: Cfg, l: CfgLabel) -> bool {
    exists|m: int| 0 <= m < c.blocks@.len() && #[trigger] c.blocks@[m].label == l
}

/// Every label of layer `layer` that a flow of `c` names is the label of a block of `c`.
/// Ids are handed out up to `u64::MAX`, which is then handed out again: the last one is
/// left out.
pub open spec fn closed_in_layer(c: Cfg, layer: u64) -> bool {
    layer < u64::MAX ==> forall|k: int, j: int|
        0 <= k < c.blocks@.len() && 0 <= j < flow_targets(c.blocks@[k].flow).len() ==> match
        #[trigger] flow_targets(c.blocks@[k].flow)[j] {
            Some(l) => l.layer == layer ==> names_block(c, l),
            None => true,
        }
}

/// All blocks of `c` are labelled in one layer, no two of them share a label, every label
/// of that layer that its flows name is that of one of its blocks, and the same holds of
/// every graph nested in it.
pub open spec fn labels_sound(c: Cfg) -> bool
    decreases c,
{
    &&& forall|i: int, j: int|
        0 <= i < j < c.blocks@.len() ==> c.blocks@[i].label != c.blocks@[j].label
    &&& forall|k: int|
        0 <= k < c.blocks@.len() ==> (#[trigger] c.blocks@[k]).label.layer == c.blocks@[0].label.layer
    &&& c.blocks@.len() > 0 ==> closed_in_layer(c, c.blocks@[0].label.layer)
    &&& forall|k: int| 0 <= k < c.blocks@.len() ==> nested_labels_sound(#[trigger] c.blocks@[k])
}

/// Every graph nested in the actions or the flow of `b` has distinct labels.
pub open spec fn nested_labels_sound(b: CfgBlock) -> bool
    decreases b,
{
    &&& flow_labels_sound(b.flow)
    &&& forall|k: int| 0 <= k < b.actions@.len() ==> action_labels_sound(#[trigger] b.actions@[k])
}

pub open spec fn flow_labels_sound(f: CfgFlow) -> bool
    decreases f,
{
    match f {
        CfgFlow::With(w) => labels_sound(w.body),
        CfgFlow::Try(t) => {
            &&& labels_sound(t.try_body)
            &&& (t.catch matches Some(c) ==> labels_sound(c.body))
            &&& (t.finally matches Some(body) ==> labels_sound(body))
        },
        _ => true,
    }
}

pub open spec fn action_labels_sound(a: Action) -> bool
    decreases a,
{
    match a {
        Action::DefineFunction(f) => labels_sound(f.body),
        Action::DefineFunction2(f) => labels_sound(f.body),
        _ => true,
    }
}

/// The decimal digit for `d < 10`.
pub open spec fn digit_char(d: nat) -> char {
    if d == 0 { '0' } else if d == 1 { '1' } else if d == 2 { '2' } else if d == 3 { '3' }
    else if d == 4 { '4' } else if d == 5 { '5' } else if d == 6 { '6' } else if d == 7 { '7' }
    else if d == 8 { '8' } else { '9' }
}

/// `n` written in decimal, without leading zeros.
pub open spec fn decimal(n: nat) -> Seq<char>
    decreases n,
{
    if n < 10 {
        seq![digit_char(n)]
    } else {
        decimal(n / 10) + seq![digit_char(n % 10)]
    }
}

/// The text of the label of layer `layer` at offset `offset`: `l{layer}_{offset}`.
pub open spec fn label_text(layer: nat, offset: nat) -> Seq<char> {
    seq!['l'] + decimal(layer) + seq!['_'] + decimal(offset)
}

fn append_char(s: &mut String, c: &str)
    requires
        c@.len() == 1,
    ensures
        final(s)@ == old(s)@ + c@,
{
    s.append(c);
}

fn append_digit(s: &mut String, d: u64)
    requires
        d < 10,
    ensures
        final(s)@ == old(s)@.push(digit_char(d as nat)),
{
    proof {
        reveal_strlit("0");
        reveal_strlit("1");
        reveal_strlit("2");
        reveal_strlit("3");
        reveal_strlit("4");
        reveal_strlit("5");
        reveal_strlit("6");
        reveal_strlit("7");
        reveal_strlit("8");
        reveal_strlit("9");
    }
    let c = match d {
        0 => "0",
        1 => "1",
        2 => "2",
        3 => "3",
        4 => "4",
        5 => "5",
        6 => "6",
        7 => "7",
        8 => "8",
        _ => "9",
    };
    append_char(s, c);
    assert(c@ =~= seq![digit_char(d as nat)]);
}

fn append_decimal(s: &mut String, n: u64)
    ensures
        final(s)@ == old(s)@ + decimal(n as nat),
    decreases n,
{
    if n >= 10 {
        append_decimal(s, n / 10);
    }
    append_digit(s, n % 10);
    assert(final(s)@ =~= old(s)@ + decimal(n as nat));
}

impl CfgLabel {
    /// The text form of the label, `l{layer}_{offset}`.
    pub fn to_text(&self) -> (r: String)
        ensures
            r@ == label_text(self.layer as nat, self.offset as nat),
    {
        let mut s = String::new();
        proof {
            reveal_strlit("l");
            reveal_strlit("_");
        }
        append_char(&mut s, "l");
        append_decimal(&mut s, self.layer);
        append_char(&mut s, "_");
        append_decimal(&mut s, self.offset as u64);
        assert(s@ =~= label_text(self.layer as nat, self.offset as nat));
        s
    }
}

} // verus!
