//! Building the control-flow graph of a program.
//!
//! Discovery walks the program from its entry, decoding each action once and marking
//! the offsets it leads to. An offset reached only by falling through from the action
//! before it is marked `Linear`; the entry, every branch target, and every offset reached
//! twice is marked `Jump` and starts a block. Nested bodies (`with`, `try`, `catch`,
//! `finally`) are walked as layers stacked on the current one; a function body is walked
//! on a stack of its own.
use vstd::prelude::*;
use crate::avm1::{
    action_size, body_is, body_of, error_action, has_header, header_of, parse_action,
    parse_action_header,
};
use crate::control_flow::{
    action_labels_sound, flow_labels_sound, flow_targets, labels_sound, names_block,
    nested_labels_sound, Action,
    CatchBlock, Cfg, CfgBlock, CfgFlow, CfgLabel, DefineFunction, DefineFunction2, If, Simple, Try,
    WaitForFrame, WaitForFrame2, With,
};
use crate::raw;

verus! {

/// Hands out layer ids in increasing order.
#[derive(Debug, PartialEq, Eq, Structural)]
pub struct IdGen(pub u64);

impl IdGen {
    pub fn new() -> (r: Self)
        ensures
            r.0 == 0,
    {
        IdGen(0)
    }

    /// Returns the next id. Once `u64::MAX` is handed out, it is handed out again.
    pub fn next(&mut self) -> (r: u64)
        ensures
            r == old(self).0,
            final(self).0 == (if old(self).0 < u64::MAX {
                old(self).0 + 1
            } else {
                old(self).0 as int
            }),
    {
        let result: u64 = self.0;
        self.0 = self.0.saturating_add(1);
        result
    }
}

/// `left + right`, or `None` when that falls outside `usize`.
pub fn try_add_offset(left: usize, right: i16) -> (r: Option<usize>)
    ensures
        r == (if 0 <= left + right <= usize::MAX {
            Some((left + right) as usize)
        } else {
            None
        }),
{
    if right >= 0 {
        let distance = right as usize;
        if left <= usize::MAX - distance {
            Some(left + distance)
        } else {
            None
        }
    } else {
        let distance = (-(right as i32)) as usize;
        if left >= distance {
            Some(left - distance)
        } else {
            None
        }
    }
}

/// How an offset was reached.
#[derive(Clone, Copy, Debug, PartialEq, Eq, Structural)]
pub enum Reachability {
    /// Only by falling through from the action just before it.
    Linear,
    /// As an entry, a branch target, or along two or more paths: it starts a block.
    Jump,
}

impl Reachability {
    pub fn set_jump(&mut self)
        ensures
            *final(self) == Reachability::Jump,
    {
        *self = Reachability::Jump;
    }
}

/// `a` is the action decoded at `offset` of `b`, and `end` the offset after it. Past the
/// end of `b` the action is `End`; where the action there is cut short, it is an error
/// that takes no bytes.
pub open spec fn decoded_at(b: Seq<u8>, offset: int, end: int, a: raw::Action) -> bool {
    if offset >= b.len() {
        end == offset && a == raw::Action::End
    } else {
        let s = b.skip(offset);
        if has_header(s) && action_size(s) <= s.len() {
            end == offset + action_size(s) && body_is(s[0], body_of(s), a)
        } else {
            end == offset && a == error_action()
        }
    }
}

/// Offset reached from `p` by stepping over one action, reading its header only: the
/// code byte, and two length bytes and the body where the length is not zero. Where no
/// header can be read, `p` itself.
pub open spec fn skip_step(b: Seq<u8>, p: int) -> int {
    if 0 <= p < b.len() && has_header(b.skip(p)) {
        let length = header_of(b.skip(p)).length;
        p + 1 + (if length > 0 {
            2 + length
        } else {
            0
        })
    } else {
        p
    }
}

/// Offset reached from `p` by stepping over `n` actions.
pub open spec fn skip_end(b: Seq<u8>, p: int, n: nat) -> int
    decreases n,
{
    if n == 0 {
        p
    } else {
        skip_step(b, skip_end(b, p, (n - 1) as nat))
    }
}

/// `a` is the block action that the decoded action `r` stands as. A function definition
/// keeps its name and parameters; its body becomes a graph of its own.
pub open spec fn block_action_of(r: raw::Action, a: Action) -> bool {
    match r {
        raw::Action::Add => a == Action::Add,
        raw::Action::Add2 => a == Action::Add2,
        raw::Action::And => a == Action::And,
        raw::Action::AsciiToChar => a == Action::AsciiToChar,
        raw::Action::BitAnd => a == Action::BitAnd,
        raw::Action::BitLShift => a == Action::BitLShift,
        raw::Action::BitOr => a == Action::BitOr,
        raw::Action::BitRShift => a == Action::BitRShift,
        raw::Action::BitURShift => a == Action::BitURShift,
        raw::Action::BitXor => a == Action::BitXor,
        raw::Action::Call => a == Action::Call,
        raw::Action::CallFunction => a == Action::CallFunction,
        raw::Action::CallMethod => a == Action::CallMethod,
        raw::Action::CastOp => a == Action::CastOp,
        raw::Action::CharToAscii => a == Action::CharToAscii,
        raw::Action::CloneSprite => a == Action::CloneSprite,
        raw::Action::Decrement => a == Action::Decrement,
        raw::Action::DefineLocal => a == Action::DefineLocal,
        raw::Action::DefineLocal2 => a == Action::DefineLocal2,
        raw::Action::Delete => a == Action::Delete,
        raw::Action::Delete2 => a == Action::Delete2,
        raw::Action::Divide => a == Action::Divide,
        raw::Action::EndDrag => a == Action::EndDrag,
        raw::Action::Enumerate => a == Action::Enumerate,
        raw::Action::Enumerate2 => a == Action::Enumerate2,
        raw::Action::Equals => a == Action::Equals,
        raw::Action::Equals2 => a == Action::Equals2,
        raw::Action::Extends => a == Action::Extends,
        raw::Action::FsCommand2 => a == Action::FsCommand2,
        raw::Action::GetMember => a == Action::GetMember,
        raw::Action::GetProperty => a == Action::GetProperty,
        raw::Action::GetTime => a == Action::GetTime,
        raw::Action::GetVariable => a == Action::GetVariable,
        raw::Action::Greater => a == Action::Greater,
        raw::Action::ImplementsOp => a == Action::ImplementsOp,
        raw::Action::Increment => a == Action::Increment,
        raw::Action::InitArray => a == Action::InitArray,
        raw::Action::InitObject => a == Action::InitObject,
        raw::Action::InstanceOf => a == Action::InstanceOf,
        raw::Action::Less => a == Action::Less,
        raw::Action::Less2 => a == Action::Less2,
        raw::Action::MbAsciiToChar => a == Action::MbAsciiToChar,
        raw::Action::MbCharToAscii => a == Action::MbCharToAscii,
        raw::Action::MbStringExtract => a == Action::MbStringExtract,
        raw::Action::MbStringLength => a == Action::MbStringLength,
        raw::Action::Modulo => a == Action::Modulo,
        raw::Action::Multiply => a == Action::Multiply,
        raw::Action::NewMethod => a == Action::NewMethod,
        raw::Action::NewObject => a == Action::NewObject,
        raw::Action::NextFrame => a == Action::NextFrame,
        raw::Action::Not => a == Action::Not,
        raw::Action::Or => a == Action::Or,
        raw::Action::Play => a == Action::Play,
        raw::Action::Pop => a == Action::Pop,
        raw::Action::PrevFrame => a == Action::PrevFrame,
        raw::Action::PushDuplicate => a == Action::PushDuplicate,
        raw::Action::RandomNumber => a == Action::RandomNumber,
        raw::Action::RemoveSprite => a == Action::RemoveSprite,
        raw::Action::SetMember => a == Action::SetMember,
        raw::Action::SetProperty => a == Action::SetProperty,
        raw::Action::SetTarget2 => a == Action::SetTarget2,
        raw::Action::SetVariable => a == Action::SetVariable,
        raw::Action::StackSwap => a == Action::StackSwap,
        raw::Action::StartDrag => a == Action::StartDrag,
        raw::Action::Stop => a == Action::Stop,
        raw::Action::StopSounds => a == Action::StopSounds,
        raw::Action::StrictEquals => a == Action::StrictEquals,
        raw::Action::StringAdd => a == Action::StringAdd,
        raw::Action::StringEquals => a == Action::StringEquals,
        raw::Action::StringExtract => a == Action::StringExtract,
        raw::Action::StringGreater => a == Action::StringGreater,
        raw::Action::StringLength => a == Action::StringLength,
        raw::Action::StringLess => a == Action::StringLess,
        raw::Action::Subtract => a == Action::Subtract,
        raw::Action::TargetPath => a == Action::TargetPath,
        raw::Action::ToInteger => a == Action::ToInteger,
        raw::Action::ToNumber => a == Action::ToNumber,
        raw::Action::ToString => a == Action::ToString,
        raw::Action::ToggleQuality => a == Action::ToggleQuality,
        raw::Action::Trace => a == Action::Trace,
        raw::Action::TypeOf => a == Action::TypeOf,
        raw::Action::ConstantPool(x) => a == Action::ConstantPool(x),
        raw::Action::GetUrl(x) => a == Action::GetUrl(x),
        raw::Action::GetUrl2(x) => a == Action::GetUrl2(x),
        raw::Action::GotoFrame(x) => a == Action::GotoFrame(x),
        raw::Action::GotoFrame2(x) => a == Action::GotoFrame2(x),
        raw::Action::GotoLabel(x) => a == Action::GotoLabel(x),
        raw::Action::Push(x) => a == Action::Push(x),
        raw::Action::Raw(x) => a == Action::Raw(x),
        raw::Action::SetTarget(x) => a == Action::SetTarget(x),
        raw::Action::StoreRegister(x) => a == Action::StoreRegister(x),
        raw::Action::StrictMode(x) => a == Action::StrictMode(x),
        raw::Action::DefineFunction(f) => a matches Action::DefineFunction(g) && g.name == f.name
            && g.parameters == f.parameters,
        raw::Action::DefineFunction2(f) => a matches Action::DefineFunction2(g) && g.name == f.name
            && g.register_count == f.register_count && g.preload_this == f.preload_this
            && g.suppress_this == f.suppress_this && g.preload_arguments == f.preload_arguments
            && g.suppress_arguments == f.suppress_arguments && g.preload_super == f.preload_super
            && g.suppress_super == f.suppress_super && g.preload_root == f.preload_root
            && g.preload_parent == f.preload_parent && g.preload_global == f.preload_global
            && g.parameters == f.parameters,
        _ => false,
    }
}

/// Where control goes on after the decoded action `r` that ends at `end`: past the body
/// of a function definition, else right after it.
pub open spec fn next_after(r: raw::Action, end: int) -> int {
    match r {
        raw::Action::DefineFunction(f) => end + f.body_size,
        raw::Action::DefineFunction2(f) => end + f.body_size,
        _ => end,
    }
}

/// The action at offset `o` of `bytes` stands in a block as `a`, and control goes on at
/// `next`.
pub open spec fn action_step(bytes: Seq<u8>, o: int, a: Action, next: int) -> bool {
    exists|end: int, r: raw::Action|
        #[trigger] decoded_at(bytes, o, end, r) && block_action_of(r, a) && next == next_after(r, end)
}

/// A label, where there is one, names offset `o`.
pub open spec fn leads_to(l: Option<CfgLabel>, o: int) -> bool {
    l matches Some(x) ==> x.offset == o
}

/// The graph `c` starts at offset `o`.
pub open spec fn enters_at(c: Cfg, o: int) -> bool {
    c.blocks@.len() > 0 && c.blocks@[0].label.offset == o
}

/// The label that a branch to `t` gets from `res`; none when `t` falls outside `usize`.
pub open spec fn branch_label(res: spec_fn(int) -> Option<CfgLabel>, t: int) -> Option<CfgLabel> {
    if 0 <= t <= usize::MAX {
        res(t)
    } else {
        None
    }
}

/// `f` is the flow that ends a block on the decoded action `r` that ends at `end`, where
/// `res` gives the label of each branch target: branches name exactly those labels,
/// nested bodies start where their layout puts them.
pub open spec fn flow_of(
    bytes: Seq<u8>,
    res: spec_fn(int) -> Option<CfgLabel>,
    r: raw::Action,
    end: int,
    f: CfgFlow,
) -> bool {
    match r {
        raw::Action::End => f == CfgFlow::Simple(Simple { next: None }),
        raw::Action::Return => f == CfgFlow::Return,
        raw::Action::Throw => f == CfgFlow::Throw,
        raw::Action::Error(e) => f == CfgFlow::Error(e),
        raw::Action::Jump(j) => f == CfgFlow::Simple(Simple { next: branch_label(res, end + j.offset) }),
        raw::Action::If(i) => f == CfgFlow::If(
            If { true_target: branch_label(res, end + i.offset), false_target: res(end) },
        ),
        raw::Action::WaitForFrame(w) => f == CfgFlow::WaitForFrame(
            WaitForFrame {
                frame: w.frame,
                loading_target: res(skip_end(bytes, end, w.skip as nat)),
                ready_target: res(end),
            },
        ),
        raw::Action::WaitForFrame2(w) => f == CfgFlow::WaitForFrame2(
            WaitForFrame2 {
                loading_target: res(skip_end(bytes, end, w.skip as nat)),
                ready_target: res(end),
            },
        ),
        raw::Action::With(_) => f matches CfgFlow::With(x) && enters_at(x.body, end),
        raw::Action::Try(t) => f matches CfgFlow::Try(x) && enters_at(x.try_body, end) && (
        x.catch is Some <==> t.catch is Some) && (x.finally is Some <==> t.finally is Some) && (
        x.catch matches Some(c) ==> c.target == t.catch->0.target && enters_at(
            c.body,
            end + t.try_size,
        )) && (x.finally matches Some(body) ==> enters_at(
            body,
            end + t.try_size + (if t.catch is Some {
                t.catch->0.size as int
            } else {
                0
            }),
        )),
        _ => false,
    }
}

/// The action at offset `o` of `bytes` ends a block with the flow `f`.
pub open spec fn flow_step(bytes: Seq<u8>, res: spec_fn(int) -> Option<CfgLabel>, o: int, f: CfgFlow) -> bool {
    exists|end: int, r: raw::Action| #[trigger] decoded_at(bytes, o, end, r) && flow_of(bytes, res, r, end, f)
}

/// Reads actions out of a program's bytes by offset.
#[derive(Clone, Copy, Debug, PartialEq, Eq)]
pub struct Avm1Parser<'a> {
    pub bytes: &'a [u8],
}

impl<'a> Avm1Parser<'a> {
    pub fn new(bytes: &'a [u8]) -> (r: Self)
        ensures
            r.bytes@ == bytes@,
    {
        Avm1Parser { bytes }
    }

    /// Decodes the action at `offset`; returns the offset after it, and the action.
    pub fn get(&self, offset: usize) -> (r: (usize, raw::Action))
        ensures
            decoded_at(self.bytes@, offset as int, r.0 as int, r.1),
            r.0 == offset || offset < r.0 <= self.bytes@.len(),
            r.0 == offset ==> r.1 is End || r.1 is Error,
    {
        let len = self.bytes.len();
        if offset >= len {
            return (offset, raw::Action::End);
        }
        let input = vstd::slice::slice_subrange(self.bytes, offset, len);
        assert(input@ == self.bytes@.skip(offset as int));
        match parse_action(input) {
            Ok((next_input, action)) => (offset + (input.len() - next_input.len()), action),
            Err(_) => (offset, raw::Action::Error(raw::Error { error: None })),
        }
    }

    /// The offset reached from `offset` by stepping over `action_count` actions.
    pub fn skip(&self, offset: usize, action_count: usize) -> (r: usize)
        requires
            offset <= self.bytes@.len() <= isize::MAX,
        ensures
            r == skip_end(self.bytes@, offset as int, action_count as nat),
    {
        let len = self.bytes.len();
        let mut pos: usize = offset;
        let mut k: usize = 0;
        while k < action_count
            invariant
                len == self.bytes@.len() <= isize::MAX,
                k <= action_count,
                pos == skip_end(self.bytes@, offset as int, k as nat),
                pos <= len + 0x1_0002,
            decreases action_count - k,
        {
            if pos < len {
                let input = vstd::slice::slice_subrange(self.bytes, pos, len);
                assert(input@ == self.bytes@.skip(pos as int));
                if let Ok((_, header)) = parse_action_header(input) {
                    let body: usize = if header.length > 0 {
                        2 + header.length
                    } else {
                        0
                    };
                    pos = pos + 1 + body;
                }
            }
            k = k + 1;
        }
        pos
    }
}

/// Every offset that discovery deals with lies below this bound: layers end at most
/// three 16-bit sizes past the end of the program.
pub open spec fn offset_bound(len: int) -> int {
    len + 0x30000
}

/// An offset that discovery has reached, and how.
#[derive(Clone, Copy, Debug, PartialEq, Eq, Structural)]
struct Mark {
    offset: usize,
    reach: Reachability,
}

/// One lexical scope: a byte range, the offsets reached in it so far (ascending), and
/// those not decoded yet (a stack).
struct LayerContext {
    id: u64,
    start: usize,
    end: usize,
    actions: Vec<Mark>,
    new_actions: Vec<usize>,
}

spec fn marks_sorted(m: Seq<Mark>) -> bool {
    forall|i: int, j: int| 0 <= i < j < m.len() ==> m[i].offset < m[j].offset
}

spec fn layer_wf(l: LayerContext, bound: int) -> bool {
    &&& l.start <= l.end <= bound
    &&& l.actions@.len() > 0
    &&& l.actions@[0] == (Mark { offset: l.start, reach: Reachability::Jump })
    &&& marks_sorted(l.actions@)
    &&& forall|i: int| 0 <= i < l.actions@.len() ==> #[trigger] l.actions@[i].offset <= bound
}

/// Decreases with each offset taken off the stack, and cannot grow when one is marked.
spec fn layer_measure(l: LayerContext, bound: int) -> int {
    2 * (bound + 1 - l.actions@.len()) + l.new_actions@.len()
}

/// Offset `o` was reached in layer `l`.
spec fn has_mark(l: LayerContext, o: int) -> bool {
    exists|i: int| 0 <= i < l.actions@.len() && #[trigger] l.actions@[i].offset == o
}

/// Offset `o` starts a block of layer `l`.
spec fn is_jump(l: LayerContext, o: int) -> bool {
    exists|i: int|
        0 <= i < l.actions@.len() && #[trigger] l.actions@[i].offset == o && l.actions@[i].reach
            == Reachability::Jump
}

/// Offset `o` was reached in layer `l`, as `r`.
spec fn marked_as(l: LayerContext, o: int, r: Reachability) -> bool {
    exists|i: int|
        0 <= i < l.actions@.len() && #[trigger] l.actions@[i].offset == o && l.actions@[i].reach == r
}

/// `new` is `old` once offset `o` is reached with `reach`: an offset reached before becomes
/// a `Jump`; a new one is recorded with `reach` and stacked for decoding. Every other mark
/// stays as it was.
spec fn marked(old: LayerContext, new: LayerContext, o: int, reach: Reachability) -> bool {
    &&& new.id == old.id && new.start == old.start && new.end == old.end
    &&& forall|p: int, r: Reachability|
        p != o ==> (#[trigger] marked_as(new, p, r) <==> marked_as(old, p, r))
    &&& has_mark(old, o) ==> marked_as(new, o, Reachability::Jump) && new.new_actions@
        == old.new_actions@
    &&& !has_mark(old, o) ==> marked_as(new, o, reach) && new.new_actions@ == old.new_actions@.push(
        o as usize,
    )
}

/// Offset `o` waits to be decoded in layer `l`.
spec fn is_pending(l: LayerContext, o: int) -> bool {
    exists|i: int| 0 <= i < l.new_actions@.len() && #[trigger] l.new_actions@[i] == o
}

/// `new` is `old` after more marking: same scope, a measure no larger, no mark lost and
/// no block start lost.
spec fn layer_grown(old: LayerContext, new: LayerContext, bound: int) -> bool {
    &&& new.id == old.id
    &&& new.start == old.start
    &&& new.end == old.end
    &&& layer_measure(new, bound) <= layer_measure(old, bound)
    &&& forall|o: int| has_mark(old, o) ==> #[trigger] has_mark(new, o)
    &&& forall|o: int| is_jump(old, o) ==> #[trigger] is_jump(new, o)
}

/// `new` is `old` after marking only: besides, every new mark waits to be decoded and
/// nothing waiting was taken.
spec fn layer_extended(old: LayerContext, new: LayerContext, bound: int) -> bool {
    &&& layer_grown(old, new, bound)
    &&& forall|o: int| #[trigger] has_mark(new, o) ==> has_mark(old, o) || is_pending(new, o)
    &&& forall|o: int| is_pending(old, o) ==> #[trigger] is_pending(new, o)
}

proof fn lemma_offset_at_least_index(m: Seq<Mark>, k: int)
    requires
        marks_sorted(m),
        0 <= k < m.len(),
    ensures
        m[k].offset >= k,
    decreases k,
{
    if k > 0 {
        lemma_offset_at_least_index(m, k - 1);
    }
}

proof fn lemma_layer_measure_nonneg(l: LayerContext, bound: int)
    requires
        layer_wf(l, bound),
    ensures
        l.actions@.len() <= bound + 1,
        layer_measure(l, bound) >= 0,
{
    let n = l.actions@.len() as int;
    lemma_offset_at_least_index(l.actions@, n - 1);
}

impl LayerContext {
    fn new(id: u64, start: usize, end: usize) -> (r: LayerContext)
        ensures
            r.id == id && r.start == start && r.end == end,
            r.actions@ == seq![Mark { offset: start, reach: Reachability::Jump }],
            r.new_actions@ == seq![start],
    {
        let mut actions: Vec<Mark> = Vec::new();
        actions.push(Mark { offset: start, reach: Reachability::Jump });
        let mut new_actions: Vec<usize> = Vec::new();
        new_actions.push(start);
        LayerContext { id, start, end, actions, new_actions }
    }

    fn contains(&self, offset: usize) -> (r: bool)
        ensures
            r == (self.start <= offset < self.end),
    {
        self.start <= offset && offset < self.end
    }

    /// Records that `offset` was reached with `reach`. An offset reached before becomes a
    /// `Jump`; a new one is stacked for decoding.
    #[verifier::rlimit(100)]
    fn mark(&mut self, offset: usize, reach: Reachability, Ghost(bound): Ghost<int>)
        requires
            layer_wf(*old(self), bound),
            old(self).start <= offset <= bound,
        ensures
            layer_wf(*final(self), bound),
            layer_extended(*old(self), *final(self), bound),
            has_mark(*final(self), offset as int),
            reach == Reachability::Jump || has_mark(*old(self), offset as int) ==> is_jump(
                *final(self),
                offset as int,
            ),
            marked(*old(self), *final(self), offset as int, reach),
    {
        let n = self.actions.len();
        let mut i: usize = 0;
        while i < n && self.actions[i].offset < offset
            invariant
                n == self.actions@.len(),
                i <= n,
                forall|k: int| 0 <= k < i ==> #[trigger] self.actions@[k].offset < offset,
            decreases n - i,
        {
            i = i + 1;
        }
        if i < n && self.actions[i].offset == offset {
            let ghost before = *self;
            let mut m = self.actions[i];
            m.reach.set_jump();
            self.actions[i] = m;
            proof {
                let after = *self;
                assert(after.actions@[i as int].offset == offset);
                assert(after.actions@[i as int].reach == Reachability::Jump);
                assert forall|o: int| has_mark(before, o) implies #[trigger] has_mark(after, o) by {
                    let k = choose|k: int|
                        0 <= k < before.actions@.len() && #[trigger] before.actions@[k].offset == o;
                    assert(after.actions@[k].offset == o);
                }
                assert forall|o: int| #[trigger] has_mark(after, o) implies has_mark(before, o) || is_pending(after, o) by {
                    let k = choose|k: int|
                        0 <= k < after.actions@.len() && #[trigger] after.actions@[k].offset == o;
                    assert(before.actions@[k].offset == o);
                }
                assert forall|o: int| is_jump(before, o) implies #[trigger] is_jump(after, o) by {
                    let k = choose|k: int|
                        0 <= k < before.actions@.len() && #[trigger] before.actions@[k].offset == o
                            && before.actions@[k].reach == Reachability::Jump;
                    assert(after.actions@[k].offset == o);
                }
                assert forall|o: int| is_pending(before, o) implies #[trigger] is_pending(after, o) by {
                    let k = choose|k: int|
                        0 <= k < before.new_actions@.len() && #[trigger] before.new_actions@[k] == o;
                    assert(after.new_actions@[k] == o);
                }
                assert forall|q: int, r: Reachability|
                    q != offset implies (#[trigger] marked_as(after, q, r) <==> marked_as(before, q, r)) by {
                    if marked_as(after, q, r) {
                        let k = choose|k: int|
                            0 <= k < after.actions@.len() && #[trigger] after.actions@[k].offset == q
                                && after.actions@[k].reach == r;
                        assert(before.actions@[k] == after.actions@[k]);
                    }
                    if marked_as(before, q, r) {
                        let k = choose|k: int|
                            0 <= k < before.actions@.len() && #[trigger] before.actions@[k].offset == q
                                && before.actions@[k].reach == r;
                        assert(before.actions@[k] == after.actions@[k]);
                    }
                }
                assert(has_mark(before, offset as int)) by {
                    assert(before.actions@[i as int].offset == offset);
                }
                assert(marked_as(after, offset as int, Reachability::Jump));
            }
        } else {
            proof {
                lemma_layer_measure_nonneg(*self, bound);
                if i == 0 {
                    assert(self.actions@[0].offset == self.start);
                }
            }
            let ghost before = self.actions@;
            let ghost before_layer = *self;
            self.actions.insert(i, Mark { offset, reach });
            self.new_actions.push(offset);
            proof {
                let after = self.actions@;
                let after_layer = *self;
                assert(after.len() == before.len() + 1);
                assert forall|k: int| 0 <= k < after.len() implies after[k] == (if k < i {
                    before[k]
                } else if k == i {
                    Mark { offset, reach }
                } else {
                    before[k - 1]
                }) by {}
                assert(i > 0);
                assert(after[0] == before[0]);
                assert(after[i as int].offset == offset);
                assert(after_layer.new_actions@[after_layer.new_actions@.len() - 1] == offset);
                assert(is_pending(after_layer, offset as int));
                assert(!has_mark(before_layer, offset as int)) by {
                    if has_mark(before_layer, offset as int) {
                        let k = choose|k: int|
                            0 <= k < before.len() && #[trigger] before[k].offset == offset;
                        if k < i {
                        } else if k == i {
                        } else {
                            assert(before[i as int].offset < before[k].offset);
                        }
                    }
                }
                assert forall|o: int| has_mark(before_layer, o) implies #[trigger] has_mark(after_layer, o) by {
                    let k = choose|k: int| 0 <= k < before.len() && #[trigger] before[k].offset == o;
                    if k < i {
                        assert(after[k].offset == o);
                    } else {
                        assert(after[k + 1].offset == o);
                    }
                }
                assert forall|o: int| #[trigger] has_mark(after_layer, o) implies has_mark(before_layer, o) || is_pending(after_layer, o) by {
                    let k = choose|k: int| 0 <= k < after.len() && #[trigger] after[k].offset == o;
                    if k < i {
                        assert(before[k].offset == o);
                    } else if k > i {
                        assert(before[k - 1].offset == o);
                    }
                }
                assert forall|o: int| is_jump(before_layer, o) implies #[trigger] is_jump(after_layer, o) by {
                    let k = choose|k: int|
                        0 <= k < before.len() && #[trigger] before[k].offset == o && before[k].reach
                            == Reachability::Jump;
                    if k < i {
                        assert(after[k].offset == o);
                    } else {
                        assert(after[k + 1].offset == o);
                    }
                }
                assert forall|o: int| is_pending(before_layer, o) implies #[trigger] is_pending(after_layer, o) by {
                    let k = choose|k: int|
                        0 <= k < before_layer.new_actions@.len() && #[trigger] before_layer.new_actions@[k] == o;
                    assert(after_layer.new_actions@[k] == o);
                }
                assert(has_mark(after_layer, offset as int)) by {
                    assert(after[i as int].offset == offset);
                }
                if reach == Reachability::Jump {
                    assert(after[i as int].reach == Reachability::Jump);
                }
                assert forall|q: int, r: Reachability|
                    q != offset implies (#[trigger] marked_as(after_layer, q, r) <==> marked_as(
                        before_layer,
                        q,
                        r,
                    )) by {
                    if marked_as(after_layer, q, r) {
                        let k = choose|k: int|
                            0 <= k < after.len() && #[trigger] after[k].offset == q && after[k].reach == r;
                        if k < i {
                            assert(before[k] == after[k]);
                        } else {
                            assert(before[k - 1] == after[k]);
                        }
                    }
                    if marked_as(before_layer, q, r) {
                        let k = choose|k: int|
                            0 <= k < before.len() && #[trigger] before[k].offset == q && before[k].reach == r;
                        if k < i {
                            assert(before[k] == after[k]);
                        } else {
                            assert(before[k] == after[k + 1]);
                        }
                    }
                }
                assert(marked_as(after_layer, offset as int, reach)) by {
                    assert(after[i as int] == (Mark { offset, reach }));
                }
                assert(after_layer.new_actions@ == before_layer.new_actions@.push(offset));
            }
        }
    }

    /// Takes the next offset to decode off the stack.
    fn pop_action(&mut self) -> (r: Option<usize>)
        ensures
            final(self).id == old(self).id && final(self).start == old(self).start
                && final(self).end == old(self).end,
            final(self).actions@ == old(self).actions@,
            r is Some ==> final(self).new_actions@.len() == old(self).new_actions@.len() - 1,
            r matches Some(p) ==> final(self).new_actions@ == old(self).new_actions@.drop_last() && p
                == old(self).new_actions@.last(),
            r is None ==> final(self).new_actions@ == old(self).new_actions@
                && old(self).new_actions@.len() == 0,
    {
        self.new_actions.pop()
    }

    /// The reachability of `offset`, if it was reached.
    fn reach_of(&self, offset: usize) -> (r: Option<Reachability>)
        requires
            marks_sorted(self.actions@),
        ensures
            r is Some <==> has_mark(*self, offset as int),
            (r == Some(Reachability::Jump)) <==> is_jump(*self, offset as int),
    {
        let n = self.actions.len();
        let mut i: usize = 0;
        while i < n
            invariant
                n == self.actions@.len(),
                i <= n,
                marks_sorted(self.actions@),
                forall|k: int| 0 <= k < i ==> #[trigger] self.actions@[k].offset != offset,
            decreases n - i,
        {
            if self.actions[i].offset == offset {
                proof {
                    if is_jump(*self, offset as int) {
                        let j = choose|j: int|
                            0 <= j < self.actions@.len() && #[trigger] self.actions@[j].offset
                                == offset && self.actions@[j].reach == Reachability::Jump;
                        if j > i {
                            assert(self.actions@[i as int].offset < self.actions@[j].offset);
                        }
                    }
                }
                return Some(self.actions[i].reach);
            }
            i = i + 1;
        }
        None
    }
}

/// Among the `k` lowest layers, the innermost that owns a branch to `o`: its range holds
/// `o`, or it lies below the top of the stack and starts at `o`.
spec fn owner_below(layers: Seq<LayerContext>, o: int, k: int) -> Option<int>
    decreases k,
{
    if k <= 0 || k > layers.len() {
        None
    } else if layers[k - 1].start <= o < layers[k - 1].end || (k < layers.len() && o
        == layers[k - 1].start) {
        Some(k - 1)
    } else {
        owner_below(layers, o, k - 1)
    }
}

/// The layer that owns a branch to `o`, if any.
spec fn owner(layers: Seq<LayerContext>, o: int) -> Option<int> {
    owner_below(layers, o, layers.len() as int)
}

/// Among the `k` lowest layers, the innermost whose range holds `o`.
spec fn holder_below(layers: Seq<LayerContext>, o: int, k: int) -> Option<int>
    decreases k,
{
    if k <= 0 || k > layers.len() {
        None
    } else if layers[k - 1].start <= o < layers[k - 1].end {
        Some(k - 1)
    } else {
        holder_below(layers, o, k - 1)
    }
}

/// The label of offset `o` in layer `k` of `layers`, or none.
spec fn label_in(layers: Seq<LayerContext>, k: Option<int>, o: int) -> Option<CfgLabel> {
    match k {
        Some(i) => Some(CfgLabel { layer: layers[i].id, offset: o as usize }),
        None => None,
    }
}

/// The label that a branch to `o` gets on the stack `layers`.
spec fn resolve_at(layers: Seq<LayerContext>, o: int) -> Option<CfgLabel> {
    label_in(layers, owner(layers, o), o)
}

/// The label that falling through to `o` gets on the stack `layers`: that of the innermost
/// layer holding `o`.
spec fn hold_at(layers: Seq<LayerContext>, o: int) -> Option<CfgLabel> {
    label_in(layers, holder_below(layers, o, layers.len() as int), o)
}

/// The two stacks have the same layers, up to what was marked in them.
spec fn same_shape(a: Seq<LayerContext>, b: Seq<LayerContext>) -> bool {
    &&& a.len() == b.len()
    &&& forall|k: int|
        0 <= k < a.len() ==> (#[trigger] a[k]).id == b[k].id && a[k].start == b[k].start && a[k].end
            == b[k].end
}

proof fn lemma_shape_below(a: Seq<LayerContext>, b: Seq<LayerContext>, o: int, k: int)
    requires
        same_shape(a, b),
    ensures
        owner_below(a, o, k) == owner_below(b, o, k),
        holder_below(a, o, k) == holder_below(b, o, k),
    decreases k,
{
    if 0 < k <= a.len() {
        assert(a[k - 1].start == b[k - 1].start && a[k - 1].end == b[k - 1].end);
        lemma_shape_below(a, b, o, k - 1);
    }
}

proof fn lemma_shape_labels(a: Seq<LayerContext>, b: Seq<LayerContext>)
    requires
        same_shape(a, b),
    ensures
        forall|o: int| #[trigger] resolve_at(a, o) == resolve_at(b, o),
        forall|o: int| #[trigger] hold_at(a, o) == hold_at(b, o),
{
    assert forall|o: int| #[trigger] resolve_at(a, o) == resolve_at(b, o) by {
        lemma_shape_below(a, b, o, a.len() as int);
        if let Some(k) = owner(a, o) {
            lemma_owner_in_range(a, o, a.len() as int);
            assert(a[k].id == b[k].id);
        }
    }
    assert forall|o: int| #[trigger] hold_at(a, o) == hold_at(b, o) by {
        lemma_shape_below(a, b, o, a.len() as int);
        if let Some(k) = holder_below(a, o, a.len() as int) {
            lemma_owner_in_range(a, o, a.len() as int);
            assert(a[k].id == b[k].id);
        }
    }
}

proof fn lemma_owner_in_range(a: Seq<LayerContext>, o: int, k: int)
    ensures
        owner_below(a, o, k) matches Some(i) ==> 0 <= i < a.len(),
        holder_below(a, o, k) matches Some(i) ==> 0 <= i < a.len(),
    decreases k,
{
    if 0 < k <= a.len() {
        lemma_owner_in_range(a, o, k - 1);
    }
}

proof fn lemma_grown_shape(a: ParseContext, b: ParseContext, bound: int)
    requires
        cx_grown(a, b, bound),
    ensures
        same_shape(a.layers@, b.layers@),
        forall|o: int| #[trigger] resolve_at(a.layers@, o) == resolve_at(b.layers@, o),
        forall|o: int| #[trigger] hold_at(a.layers@, o) == hold_at(b.layers@, o),
{
    assert forall|k: int| 0 <= k < a.layers@.len() implies (#[trigger] a.layers@[k]).id
        == b.layers@[k].id && a.layers@[k].start == b.layers@[k].start && a.layers@[k].end
        == b.layers@[k].end by {
        assert(layer_grown(a.layers@[k], b.layers@[k], bound));
    }
    lemma_shape_labels(a.layers@, b.layers@);
}

/// The stack of layers of one walk. The innermost layer is on top.
struct ParseContext {
    layers: Vec<LayerContext>,
}

spec fn cx_wf(cx: ParseContext, bound: int) -> bool {
    &&& cx.layers@.len() > 0
    &&& forall|k: int| 0 <= k < cx.layers@.len() ==> layer_wf(#[trigger] cx.layers@[k], bound)
}

/// `new` is `old` after a walk of its top layer: that layer grew, the ones below it were
/// extended.
spec fn cx_grown(old: ParseContext, new: ParseContext, bound: int) -> bool {
    &&& new.layers@.len() == old.layers@.len()
    &&& forall|k: int|
        0 <= k < old.layers@.len() ==> layer_grown(old.layers@[k], #[trigger] new.layers@[k], bound)
    &&& forall|k: int|
        0 <= k < old.layers@.len() - 1 ==> layer_extended(
            old.layers@[k],
            #[trigger] new.layers@[k],
            bound,
        )
}

/// `new` is `old` after marking only, layer by layer.
spec fn cx_extended(old: ParseContext, new: ParseContext, bound: int) -> bool {
    &&& new.layers@.len() == old.layers@.len()
    &&& forall|k: int|
        0 <= k < old.layers@.len() ==> layer_extended(
            old.layers@[k],
            #[trigger] new.layers@[k],
            bound,
        )
}

/// Layer ids grow from the bottom of the stack to its top (short of the last id, which
/// repeats).
spec fn ids_ordered(cx: ParseContext) -> bool {
    forall|a: int, b: int|
        0 <= a < b < cx.layers@.len() ==> #[trigger] cx.layers@[a].id < #[trigger] cx.layers@[b].id
            || cx.layers@[b].id == u64::MAX
}

/// Every layer id on the stack was handed out before `next`.
spec fn ids_issued(cx: ParseContext, next: u64) -> bool {
    forall|k: int| 0 <= k < cx.layers@.len() ==> (#[trigger] cx.layers@[k]).id < next || next == u64::MAX
}

proof fn lemma_ids_kept(a: ParseContext, b: ParseContext, next_a: u64, next_b: u64, bound: int)
    requires
        ids_ordered(a),
        ids_issued(a, next_a),
        cx_grown(a, b, bound),
        next_a <= next_b,
    ensures
        ids_ordered(b),
        ids_issued(b, next_b),
{
    assert forall|x: int, y: int| 0 <= x < y < b.layers@.len() implies #[trigger] b.layers@[x].id
        < #[trigger] b.layers@[y].id || b.layers@[y].id == u64::MAX by {
        assert(layer_grown(a.layers@[x], b.layers@[x], bound));
        assert(layer_grown(a.layers@[y], b.layers@[y], bound));
    }
    assert forall|k: int| 0 <= k < b.layers@.len() implies (#[trigger] b.layers@[k]).id < next_b
        || next_b == u64::MAX by {
        assert(layer_grown(a.layers@[k], b.layers@[k], bound));
    }
}

proof fn lemma_ids_popped(a: ParseContext, b: ParseContext, next: u64)
    requires
        ids_ordered(a),
        ids_issued(a, next),
        a.layers@.len() > 0,
        b.layers@ == a.layers@.drop_last(),
    ensures
        ids_ordered(b),
        ids_issued(b, next),
{
    assert forall|x: int, y: int| 0 <= x < y < b.layers@.len() implies #[trigger] b.layers@[x].id
        < #[trigger] b.layers@[y].id || b.layers@[y].id == u64::MAX by {
        assert(b.layers@[x] == a.layers@[x]);
        assert(b.layers@[y] == a.layers@[y]);
    }
    assert forall|k: int| 0 <= k < b.layers@.len() implies (#[trigger] b.layers@[k]).id < next
        || next == u64::MAX by {
        assert(b.layers@[k] == a.layers@[k]);
    }
}

proof fn lemma_ids_ordered_kept(a: ParseContext, b: ParseContext, bound: int)
    requires
        ids_ordered(a),
        cx_grown(a, b, bound),
    ensures
        ids_ordered(b),
{
    assert forall|x: int, y: int| 0 <= x < y < b.layers@.len() implies #[trigger] b.layers@[x].id
        < #[trigger] b.layers@[y].id || b.layers@[y].id == u64::MAX by {
        assert(layer_grown(a.layers@[x], b.layers@[x], bound));
        assert(layer_grown(a.layers@[y], b.layers@[y], bound));
    }
}

/// A label that names the layer `top` names an offset that starts one of its blocks.
spec fn target_ok(top: LayerContext, t: Option<CfgLabel>) -> bool {
    match t {
        Some(l) => (l.layer == top.id && top.id < u64::MAX ==> is_jump(top, l.offset as int)),
        None => true,
    }
}

spec fn targets_ok(top: LayerContext, f: CfgFlow) -> bool {
    forall|j: int| 0 <= j < flow_targets(f).len() ==> target_ok(top, #[trigger] flow_targets(f)[j])
}

proof fn lemma_target_grown(
    old_top: LayerContext,
    new_top: LayerContext,
    t: Option<CfgLabel>,
    bound: int,
)
    requires
        target_ok(old_top, t),
        layer_grown(old_top, new_top, bound),
    ensures
        target_ok(new_top, t),
{
    if let Some(l) = t {
        if l.layer == new_top.id && new_top.id < u64::MAX {
            assert(is_jump(old_top, l.offset as int));
        }
    }
}

proof fn lemma_targets_grown(old_top: LayerContext, new_top: LayerContext, f: CfgFlow, bound: int)
    requires
        targets_ok(old_top, f),
        layer_grown(old_top, new_top, bound),
    ensures
        targets_ok(new_top, f),
{
    assert forall|j: int| 0 <= j < flow_targets(f).len() implies target_ok(
        new_top,
        #[trigger] flow_targets(f)[j],
    ) by {
        assert(target_ok(old_top, flow_targets(f)[j]));
        if let Some(l) = flow_targets(f)[j] {
            if l.layer == new_top.id && new_top.id < u64::MAX {
                assert(is_jump(old_top, l.offset as int));
            }
        }
    }
}

proof fn lemma_layer_extended_trans(a: LayerContext, b: LayerContext, c: LayerContext, bound: int)
    requires
        layer_extended(a, b, bound),
        layer_extended(b, c, bound),
    ensures
        layer_extended(a, c, bound),
{
    assert forall|o: int| #[trigger] has_mark(c, o) implies has_mark(a, o) || is_pending(c, o) by {
        if has_mark(b, o) && !has_mark(a, o) {
            assert(is_pending(b, o));
        }
    }
}

proof fn lemma_extended_trans(a: ParseContext, b: ParseContext, c: ParseContext, bound: int)
    requires
        cx_extended(a, b, bound),
        cx_extended(b, c, bound),
    ensures
        cx_extended(a, c, bound),
{
    assert forall|k: int| 0 <= k < a.layers@.len() implies layer_extended(
        a.layers@[k],
        #[trigger] c.layers@[k],
        bound,
    ) by {
        lemma_layer_extended_trans(a.layers@[k], b.layers@[k], c.layers@[k], bound);
    }
}

proof fn lemma_extended_grown(a: ParseContext, b: ParseContext, bound: int)
    requires
        cx_extended(a, b, bound),
    ensures
        cx_grown(a, b, bound),
{
    assert forall|k: int| 0 <= k < a.layers@.len() implies layer_grown(
        a.layers@[k],
        #[trigger] b.layers@[k],
        bound,
    ) by {
        assert(layer_extended(a.layers@[k], b.layers@[k], bound));
    }
}

spec fn top_of(cx: ParseContext) -> LayerContext {
    cx.layers@.last()
}

proof fn lemma_grown_trans(a: ParseContext, b: ParseContext, c: ParseContext, bound: int)
    requires
        cx_grown(a, b, bound),
        cx_grown(b, c, bound),
    ensures
        cx_grown(a, c, bound),
{
    assert forall|k: int| 0 <= k < a.layers@.len() implies layer_grown(
        a.layers@[k],
        #[trigger] c.layers@[k],
        bound,
    ) by {
        assert(layer_grown(a.layers@[k], b.layers@[k], bound));
        assert(layer_grown(b.layers@[k], c.layers@[k], bound));
    }
    assert forall|k: int| 0 <= k < a.layers@.len() - 1 implies layer_extended(
        a.layers@[k],
        #[trigger] c.layers@[k],
        bound,
    ) by {
        lemma_layer_extended_trans(a.layers@[k], b.layers@[k], c.layers@[k], bound);
    }
}

proof fn lemma_push_walk_pop(
    before: ParseContext,
    pushed: ParseContext,
    walked: ParseContext,
    popped: ParseContext,
    bound: int,
)
    requires
        cx_wf(before, bound),
        pushed.layers@.len() == before.layers@.len() + 1,
        pushed.layers@.drop_last() == before.layers@,
        cx_grown(pushed, walked, bound),
        cx_wf(walked, bound),
        popped.layers@ == walked.layers@.drop_last(),
    ensures
        cx_wf(popped, bound),
        cx_extended(before, popped, bound),
{
    assert forall|k: int| 0 <= k < popped.layers@.len() implies layer_wf(
        #[trigger] popped.layers@[k],
        bound,
    ) && layer_extended(before.layers@[k], popped.layers@[k], bound) by {
        assert(popped.layers@[k] == walked.layers@[k]);
        assert(before.layers@[k] == pushed.layers@[k]);
        assert(layer_extended(pushed.layers@[k], walked.layers@[k], bound));
        assert(layer_wf(walked.layers@[k], bound));
    }
}

impl ParseContext {
    fn new(idg: &mut IdGen, start: usize, end: usize, Ghost(bound): Ghost<int>) -> (r: ParseContext)
        requires
            start <= end <= bound,
        ensures
            cx_wf(r, bound),
            r.layers@.len() == 1,
            top_of(r).start == start && top_of(r).end == end,
            top_of(r).id == old(idg).0,
            fresh(top_of(r)),
            ids_ordered(r),
            ids_issued(r, final(idg).0),
            final(idg).0 >= old(idg).0,
            final(idg).0 == (if old(idg).0 < u64::MAX {
                old(idg).0 + 1
            } else {
                old(idg).0 as int
            }),
    {
        let id = idg.next();
        let mut layers: Vec<LayerContext> = Vec::new();
        layers.push(LayerContext::new(id, start, end));
        ParseContext { layers }
    }

    fn push_layer(&mut self, idg: &mut IdGen, start: usize, end: usize, Ghost(bound): Ghost<int>)
        requires
            cx_wf(*old(self), bound),
            start <= end <= bound,
            ids_ordered(*old(self)),
            ids_issued(*old(self), old(idg).0),
        ensures
            ids_ordered(*final(self)),
            ids_issued(*final(self), final(idg).0),
            final(idg).0 >= old(idg).0,
            cx_wf(*final(self), bound),
            final(self).layers@.len() == old(self).layers@.len() + 1,
            final(self).layers@.drop_last() == old(self).layers@,
            top_of(*final(self)).start == start && top_of(*final(self)).end == end,
            fresh(top_of(*final(self))),
    {
        let id = idg.next();
        self.layers.push(LayerContext::new(id, start, end));
        assert(self.layers@.drop_last() =~= old(self).layers@);
        proof {
            let n = old(self).layers@.len() as int;
            assert forall|k: int| 0 <= k < self.layers@.len() implies (#[trigger] self.layers@[k]).id
                < idg.0 || idg.0 == u64::MAX by {
                if k < n {
                    assert(self.layers@[k] == old(self).layers@[k]);
                }
            }
            assert forall|x: int, y: int| 0 <= x < y < self.layers@.len() implies #[trigger] self.layers@[x].id
                < #[trigger] self.layers@[y].id || self.layers@[y].id == u64::MAX by {
                assert(self.layers@[x] == old(self).layers@[x]);
                if y < n {
                    assert(self.layers@[y] == old(self).layers@[y]);
                }
            }
        }
    }

    fn pop_layer(&mut self)
        requires
            old(self).layers@.len() > 0,
        ensures
            final(self).layers@ == old(self).layers@.drop_last(),
    {
        self.layers.pop();
    }

    /// Records that the action before `index` falls through to it.
    fn linear(&mut self, index: usize, Ghost(bound): Ghost<int>)
        requires
            cx_wf(*old(self), bound),
            top_of(*old(self)).start <= index <= bound,
        ensures
            cx_wf(*final(self), bound),
            cx_extended(*old(self), *final(self), bound),
            has_mark(top_of(*final(self)), index as int),
            has_mark(top_of(*old(self)), index as int) ==> is_jump(
                top_of(*final(self)),
                index as int,
            ),
            marked(top_of(*old(self)), top_of(*final(self)), index as int, Reachability::Linear),
            final(self).layers@.drop_last() == old(self).layers@.drop_last(),
    {
        let t = self.layers.len() - 1;
        assert(layer_wf(self.layers@[t as int], bound));
        self.layers[t].mark(index, Reachability::Linear, Ghost(bound));
        proof {
            assert forall|j: int| 0 <= j < self.layers@.len() implies layer_wf(
                #[trigger] self.layers@[j],
                bound,
            ) && layer_extended(old(self).layers@[j], self.layers@[j], bound) by {
                if j != t {
                    assert(self.layers@[j] == old(self).layers@[j]);
                }
            }
            assert(self.layers@.drop_last() =~= old(self).layers@.drop_last());
        }
    }

    /// Resolves a branch to `index`: the innermost layer whose range holds it owns its
    /// label, and so does an outer layer that starts there. That layer marks it as a
    /// `Jump`. `None` when no layer owns it.
    fn jump(&mut self, index: usize, Ghost(bound): Ghost<int>) -> (r: Option<CfgLabel>)
        requires
            cx_wf(*old(self), bound),
            ids_ordered(*old(self)),
        ensures
            cx_wf(*final(self), bound),
            cx_extended(*old(self), *final(self), bound),
            r matches Some(l) ==> l.offset == index,
            target_ok(top_of(*final(self)), r),
            ids_ordered(*final(self)),
            r == label_in(old(self).layers@, owner(old(self).layers@, index as int), index as int),
            owner(old(self).layers@, index as int) is None ==> final(self).layers@ == old(
                self,
            ).layers@,
            owner(old(self).layers@, index as int) matches Some(k) ==> marked(
                old(self).layers@[k],
                final(self).layers@[k],
                index as int,
                Reachability::Jump,
            ) && final(self).layers@ == old(self).layers@.update(k, final(self).layers@[k]),
    {
        let n = self.layers.len();
        let mut k: usize = n;
        while k > 0
            invariant
                k <= n == self.layers@.len(),
                *self == *old(self),
                cx_wf(*self, bound),
                ids_ordered(*self),
                owner(self.layers@, index as int) == owner_below(self.layers@, index as int, k as int),
            decreases k,
        {
            let i = k - 1;
            let is_top = i == n - 1;
            if self.layers[i].contains(index) || (!is_top && index == self.layers[i].start) {
                assert(layer_wf(self.layers@[i as int], bound));
                self.layers[i].mark(index, Reachability::Jump, Ghost(bound));
                proof {
                    assert forall|j: int| 0 <= j < self.layers@.len() implies layer_wf(
                        #[trigger] self.layers@[j],
                        bound,
                    ) && layer_extended(old(self).layers@[j], self.layers@[j], bound) by {
                        if j != i {
                            assert(self.layers@[j] == old(self).layers@[j]);
                        }
                    }
                    lemma_extended_grown(*old(self), *self, bound);
                    lemma_ids_ordered_kept(*old(self), *self, bound);
                    let top = n - 1;
                    assert(top_of(*self) == self.layers@[top as int]);
                    if i < top {
                        assert(old(self).layers@[i as int].id < old(self).layers@[top as int].id
                            || old(self).layers@[top as int].id == u64::MAX);
                        assert(self.layers@[top as int] == old(self).layers@[top as int]);
                    }
                    assert(self.layers@ =~= old(self).layers@.update(i as int, self.layers@[i as int]));
                }
                return Some(CfgLabel { layer: self.layers[i].id, offset: index });
            }
            k = i;
        }
        None
    }

    /// Takes the next offset to decode off the top layer's stack.
    fn pop_action(&mut self, Ghost(bound): Ghost<int>) -> (r: Option<usize>)
        requires
            cx_wf(*old(self), bound),
        ensures
            cx_wf(*final(self), bound),
            cx_grown(*old(self), *final(self), bound),
            final(self).layers@.drop_last() == old(self).layers@.drop_last(),
            r is Some ==> layer_measure(top_of(*final(self)), bound) == layer_measure(
                top_of(*old(self)),
                bound,
            ) - 1,
            top_of(*final(self)).actions@ == top_of(*old(self)).actions@,
            r matches Some(p) ==> top_of(*final(self)).new_actions@ == top_of(
                *old(self),
            ).new_actions@.drop_last() && p == top_of(*old(self)).new_actions@.last(),
            r is None ==> top_of(*old(self)).new_actions@.len() == 0
                && top_of(*final(self)).new_actions@ == top_of(*old(self)).new_actions@,
    {
        let t = self.layers.len() - 1;
        let r = self.layers[t].pop_action();
        assert(self.layers@.drop_last() =~= old(self).layers@.drop_last());
        r
    }

    /// The label of `target` in the innermost layer whose range holds it.
    fn get_target_label(&self, target: usize) -> (r: Option<CfgLabel>)
        ensures
            r matches Some(l) ==> l.offset == target,
            r == label_in(self.layers@, holder_below(self.layers@, target as int, self.layers@.len() as int), target as int),
    {
        let mut k: usize = self.layers.len();
        while k > 0
            invariant
                k <= self.layers@.len(),
                holder_below(self.layers@, target as int, self.layers@.len() as int) == holder_below(
                    self.layers@,
                    target as int,
                    k as int,
                ),
            decreases k,
        {
            let i = k - 1;
            if self.layers[i].contains(target) {
                return Some(CfgLabel { layer: self.layers[i].id, offset: target });
            }
            k = i;
        }
        None
    }
}

/// What discovery found at an offset: an action and the offset after it, or the flow
/// that ends a block.
enum Parsed {
    Action(usize, Action),
    Flow(CfgFlow),
}

/// The graphs nested in `p` have distinct labels.
spec fn parsed_ok(p: Parsed) -> bool {
    match p {
        Parsed::Action(_, a) => action_labels_sound(a),
        Parsed::Flow(f) => flow_labels_sound(f),
    }
}

spec fn all_parsed_ok(parsed: Seq<(usize, Parsed)>) -> bool {
    forall|k: int| 0 <= k < parsed.len() ==> parsed_ok(#[trigger] parsed[k].1)
}

/// Some entry of `parsed` is for offset `o`.
spec fn has_key(parsed: Seq<(usize, Parsed)>, o: int) -> bool {
    exists|k: int| 0 <= k < parsed.len() && #[trigger] parsed[k].0 == o
}

/// The offset after an action entry.
spec fn next_of(p: Parsed) -> Option<usize> {
    match p {
        Parsed::Action(next, _) => Some(next),
        Parsed::Flow(_) => None,
    }
}

/// `f` leaves a layer over `[lo, hi)` from the offset `o` outside it, towards `o`.
pub open spec fn leaves_layer(lo: int, hi: int, res: spec_fn(int) -> Option<CfgLabel>, o: int, f: CfgFlow) -> bool {
    !(lo <= o < hi) && f == CfgFlow::Simple(Simple { next: res(o) })
}

/// What was recorded at `e.0` is what the program holds there, for a layer over
/// `[lo, hi)`. An offset outside the range leaves the layer.
spec fn entry_ok(bytes: Seq<u8>, res: spec_fn(int) -> Option<CfgLabel>, lo: int, hi: int, bound: int, e: (usize, Parsed)) -> bool {
    &&& parsed_ok(e.1)
    &&& match e.1 {
        Parsed::Action(next, a) => e.0 < next <= bound && action_step(bytes, e.0 as int, a, next as int),
        Parsed::Flow(f) => flow_step(bytes, res, e.0 as int, f) || leaves_layer(lo, hi, res, e.0 as int, f),
    }
}

spec fn entries_ok(bytes: Seq<u8>, res: spec_fn(int) -> Option<CfgLabel>, lo: int, hi: int, bound: int, parsed: Seq<(usize, Parsed)>) -> bool {
    forall|k: int| 0 <= k < parsed.len() ==> entry_ok(bytes, res, lo, hi, bound, #[trigger] parsed[k])
}

/// Every action entry goes on to an offset of layer `l`, and an offset that two entries
/// go on to starts a block.
spec fn entries_linked(l: LayerContext, parsed: Seq<(usize, Parsed)>) -> bool {
    &&& forall|k: int|
        0 <= k < parsed.len() && (#[trigger] next_of(parsed[k].1)) is Some ==> has_mark(
            l,
            next_of(parsed[k].1)->0 as int,
        )
    &&& forall|a: int, b: int|
        0 <= a < parsed.len() && 0 <= b < parsed.len() && a != b && (#[trigger] next_of(
            parsed[a].1,
        )) is Some && next_of(parsed[a].1) == #[trigger] next_of(parsed[b].1) ==> is_jump(
            l,
            next_of(parsed[a].1)->0 as int,
        )
}

proof fn lemma_linked_grown(
    old_layer: LayerContext,
    new_layer: LayerContext,
    parsed: Seq<(usize, Parsed)>,
    bound: int,
)
    requires
        entries_linked(old_layer, parsed),
        layer_grown(old_layer, new_layer, bound),
    ensures
        entries_linked(new_layer, parsed),
{
    assert forall|k: int|
        0 <= k < parsed.len() && (#[trigger] next_of(parsed[k].1)) is Some implies has_mark(
        new_layer,
        next_of(parsed[k].1)->0 as int,
    ) by {
        assert(has_mark(old_layer, next_of(parsed[k].1)->0 as int));
    }
    assert forall|a: int, b: int|
        0 <= a < parsed.len() && 0 <= b < parsed.len() && a != b && (#[trigger] next_of(
            parsed[a].1,
        )) is Some && next_of(parsed[a].1) == #[trigger] next_of(parsed[b].1) implies is_jump(
        new_layer,
        next_of(parsed[a].1)->0 as int,
    ) by {
        assert(is_jump(old_layer, next_of(parsed[a].1)->0 as int));
    }
}

/// Layer `l` was just opened: only its start is reached, and it waits to be decoded.
spec fn fresh(l: LayerContext) -> bool {
    &&& l.actions@ == seq![Mark { offset: l.start, reach: Reachability::Jump }]
    &&& l.new_actions@ == seq![l.start]
}

proof fn lemma_fresh_covered(l: LayerContext)
    requires
        fresh(l),
    ensures
        marks_covered(l, seq![]),
{
    assert forall|o: int| #[trigger] has_mark(l, o) implies is_pending(l, o) || has_key(
        seq![],
        o,
    ) by {
        let k = choose|k: int| 0 <= k < l.actions@.len() && #[trigger] l.actions@[k].offset == o;
        assert(k == 0);
        assert(l.new_actions@[0] == o);
    }
}

/// Every label that a flow entry names in layer `top` names one of its block starts.
spec fn entries_targets_ok(top: LayerContext, parsed: Seq<(usize, Parsed)>) -> bool {
    forall|k: int|
        0 <= k < parsed.len() ==> match (#[trigger] parsed[k]).1 {
            Parsed::Flow(f) => targets_ok(top, f),
            Parsed::Action(_, _) => true,
        }
}

proof fn lemma_targets_record(
    old_top: LayerContext,
    new_top: LayerContext,
    parsed: Seq<(usize, Parsed)>,
    e: (usize, Parsed),
    bound: int,
)
    requires
        entries_targets_ok(old_top, parsed),
        layer_grown(old_top, new_top, bound),
        e.1 matches Parsed::Flow(f) ==> targets_ok(new_top, f),
    ensures
        entries_targets_ok(new_top, parsed.push(e)),
{
    let pushed = parsed.push(e);
    assert forall|k: int| 0 <= k < pushed.len() implies match (#[trigger] pushed[k]).1 {
        Parsed::Flow(f) => targets_ok(new_top, f),
        Parsed::Action(_, _) => true,
    } by {
        if k < parsed.len() {
            assert(pushed[k] == parsed[k]);
            if let Parsed::Flow(f) = parsed[k].1 {
                lemma_targets_grown(old_top, new_top, f, bound);
            }
        }
    }
}

/// Every offset reached in layer `l` waits to be decoded or has been.
spec fn marks_covered(l: LayerContext, parsed: Seq<(usize, Parsed)>) -> bool {
    forall|o: int| #[trigger] has_mark(l, o) ==> is_pending(l, o) || has_key(parsed, o)
}

/// The blocks of `c` are labelled in layer `layer`, at strictly ascending offsets, and the
/// first one starts at `start`.
pub open spec fn cfg_ordered(c: Cfg, layer: u64, start: int) -> bool {
    &&& c.blocks@.len() > 0
    &&& c.blocks@[0].label.offset == start
    &&& forall|k: int| 0 <= k < c.blocks@.len() ==> (#[trigger] c.blocks@[k]).label.layer == layer
    &&& forall|i: int, j: int|
        0 <= i < j < c.blocks@.len() ==> c.blocks@[i].label.offset < c.blocks@[j].label.offset
}

/// Takes the entry for `offset` out of `parsed`.
fn take_parsed(parsed: &mut Vec<(usize, Parsed)>, offset: usize) -> (r: Option<Parsed>)
    ensures
        r is None ==> final(parsed)@ == old(parsed)@ && !has_key(old(parsed)@, offset as int),
        r matches Some(p) ==> exists|i: int|
            0 <= i < old(parsed)@.len() && #[trigger] old(parsed)@[i] == (offset, p)
                && final(parsed)@ == old(parsed)@.remove(i),
{
    let n = parsed.len();
    let mut i: usize = 0;
    while i < n
        invariant
            n == parsed@.len(),
            i <= n,
            *parsed == *old(parsed),
            forall|k: int| 0 <= k < i ==> #[trigger] parsed@[k].0 != offset,
        decreases n - i,
    {
        if parsed[i].0 == offset {
            let ghost before = parsed@;
            let (_, p) = parsed.remove(i);
            assert(before[i as int] == (offset, p));
            return Some(p);
        }
        i = i + 1;
    }
    None
}

/// Every action entry whose successor does not start a block has that successor's entry
/// beside it.
spec fn successors_kept(l: LayerContext, parsed: Seq<(usize, Parsed)>) -> bool {
    forall|k: int|
        0 <= k < parsed.len() && (#[trigger] next_of(parsed[k].1)) is Some && !is_jump(
            l,
            next_of(parsed[k].1)->0 as int,
        ) ==> has_key(parsed, next_of(parsed[k].1)->0 as int)
}

/// No entry goes on to `o` unless `o` starts a block.
spec fn only_jumps_reach(l: LayerContext, parsed: Seq<(usize, Parsed)>, o: int) -> bool {
    forall|k: int|
        0 <= k < parsed.len() && (#[trigger] next_of(parsed[k].1)) == Some(o as usize) ==> is_jump(
            l,
            o,
        )
}

/// Taking out the entry at position `i`, for offset `index`, keeps the entries sound and
/// linked; the entry it goes on to, if it does not start a block, is still there.
proof fn lemma_take(
    bytes: Seq<u8>,
    res: spec_fn(int) -> Option<CfgLabel>,
    lo: int,
    hi: int,
    bound: int,
    l: LayerContext,
    parsed: Seq<(usize, Parsed)>,
    i: int,
    index: int,
)
    requires
        0 <= i < parsed.len(),
        parsed[i].0 == index,
        0 <= index,
        entries_ok(bytes, res, lo, hi, bound, parsed),
        entries_linked(l, parsed),
        successors_kept(l, parsed),
        only_jumps_reach(l, parsed, index),
    ensures
        entries_ok(bytes, res, lo, hi, bound, parsed.remove(i)),
        entries_linked(l, parsed.remove(i)),
        successors_kept(l, parsed.remove(i)),
        forall|o: int| has_key(parsed, o) && o != index ==> #[trigger] has_key(parsed.remove(i), o),
        next_of(parsed[i].1) matches Some(n) ==> only_jumps_reach(l, parsed.remove(i), n as int)
            && (!is_jump(l, n as int) ==> has_key(parsed.remove(i), n as int)),
{
    let rem = parsed.remove(i);
    assert forall|k: int| 0 <= k < rem.len() implies rem[k] == parsed[if k < i {
        k
    } else {
        k + 1
    }] by {}
    assert forall|k: int| 0 <= k < rem.len() implies entry_ok(bytes, res, lo, hi, bound, #[trigger] rem[k]) by {
        if k >= i {
            assert(rem[k] == parsed[k + 1]);
        }
    }
    assert forall|o: int| has_key(parsed, o) && o != index implies #[trigger] has_key(rem, o) by {
        let k = choose|k: int| 0 <= k < parsed.len() && #[trigger] parsed[k].0 == o;
        if k < i {
            assert(rem[k].0 == o);
        } else {
            assert(k != i);
            assert(rem[k - 1].0 == o);
        }
    }
    assert forall|k: int|
        0 <= k < rem.len() && (#[trigger] next_of(rem[k].1)) is Some implies has_mark(
        l,
        next_of(rem[k].1)->0 as int,
    ) by {
        let kk = if k < i { k } else { k + 1 };
        assert(rem[k] == parsed[kk]);
        assert(next_of(parsed[kk].1) is Some);
    }
    assert forall|a: int, b: int|
        0 <= a < rem.len() && 0 <= b < rem.len() && a != b && (#[trigger] next_of(rem[a].1)) is Some
            && next_of(rem[a].1) == #[trigger] next_of(rem[b].1) implies is_jump(
        l,
        next_of(rem[a].1)->0 as int,
    ) by {
        let aa = if a < i { a } else { a + 1 };
        let bb = if b < i { b } else { b + 1 };
        assert(rem[a] == parsed[aa]);
        assert(rem[b] == parsed[bb]);
        assert(next_of(parsed[aa].1) is Some);
        assert(next_of(parsed[aa].1) == next_of(parsed[bb].1));
    }
    assert forall|k: int|
        0 <= k < rem.len() && (#[trigger] next_of(rem[k].1)) is Some && !is_jump(
            l,
            next_of(rem[k].1)->0 as int,
        ) implies has_key(rem, next_of(rem[k].1)->0 as int) by {
        let kk = if k < i { k } else { k + 1 };
        assert(rem[k] == parsed[kk]);
        assert(next_of(parsed[kk].1) is Some);
        let m = next_of(parsed[kk].1)->0 as int;
        assert(has_key(parsed, m));
        if m == index {
            assert(next_of(parsed[kk].1) == Some(index as usize));
        }
    }
    if let Some(n) = next_of(parsed[i].1) {
        assert forall|k: int|
            0 <= k < rem.len() && (#[trigger] next_of(rem[k].1)) == Some(n) implies is_jump(
            l,
            n as int,
        ) by {
            let kk = if k < i { k } else { k + 1 };
            assert(rem[k] == parsed[kk]);
            assert(next_of(parsed[kk].1) == next_of(parsed[i].1));
        }
        if !is_jump(l, n as int) {
            assert(has_key(parsed, n as int));
            assert(entry_ok(bytes, res, lo, hi, bound, parsed[i]));
        }
    }
}

/// The offsets `offsets` lead through `actions`: each action stands at one offset and goes
/// on to the next.
pub open spec fn steps_along(bytes: Seq<u8>, offsets: Seq<int>, actions: Seq<Action>) -> bool {
    &&& offsets.len() == actions.len() + 1
    &&& forall|i: int|
        0 <= i < actions.len() ==> action_step(bytes, offsets[i], #[trigger] actions[i], offsets[i + 1])
}

/// Block `b`, whose actions lead to offset `o`, ends there: on the flow that the action at
/// `o` stands for, by leaving a layer over `[lo, hi)` from `o` outside it, or, after at
/// least one action, by going on to `o` where another block starts.
pub open spec fn block_ends(
    bytes: Seq<u8>,
    res: spec_fn(int) -> Option<CfgLabel>,
    hold: spec_fn(int) -> Option<CfgLabel>,
    lo: int,
    hi: int,
    b: CfgBlock,
    o: int,
) -> bool {
    ||| flow_step(bytes, res, o, b.flow)
    ||| leaves_layer(lo, hi, res, o, b.flow)
    ||| (b.actions@.len() > 0 && b.flow == CfgFlow::Simple(Simple { next: hold(o) }))
}

/// The block `b` of a layer over `[lo, hi)` holds what the program holds from its label's
/// offset on: its actions one after the other, then its flow.
pub open spec fn block_follows(
    bytes: Seq<u8>,
    res: spec_fn(int) -> Option<CfgLabel>,
    hold: spec_fn(int) -> Option<CfgLabel>,
    lo: int,
    hi: int,
    b: CfgBlock,
) -> bool {
    exists|offsets: Seq<int>|
        #[trigger] steps_along(bytes, offsets, b.actions@) && offsets[0] == b.label.offset
            && block_ends(bytes, res, hold, lo, hi, b, offsets.last())
}

/// Assembles the block that starts at `start`: the actions from there on, up to a flow,
/// or up to an offset that starts a block of its own.
fn build_block(
    cx: &ParseContext,
    parsed: &mut Vec<(usize, Parsed)>,
    start: usize,
    Ghost(bytes): Ghost<Seq<u8>>,
    Ghost(res): Ghost<spec_fn(int) -> Option<CfgLabel>>,
    Ghost(hold): Ghost<spec_fn(int) -> Option<CfgLabel>>,
    Ghost(lo): Ghost<int>,
    Ghost(hi): Ghost<int>,
    Ghost(bound): Ghost<int>,
) -> (r: CfgBlock)
    requires
        cx.layers@.len() > 0,
        marks_sorted(top_of(*cx).actions@),
        all_parsed_ok(old(parsed)@),
        entries_ok(bytes, res, lo, hi, bound, old(parsed)@),
        entries_linked(top_of(*cx), old(parsed)@),
        successors_kept(top_of(*cx), old(parsed)@),
        is_jump(top_of(*cx), start as int),
        has_key(old(parsed)@, start as int),
        forall|o: int| #[trigger] hold(o) == hold_at(cx.layers@, o),
        entries_targets_ok(top_of(*cx), old(parsed)@),
    ensures
        targets_ok(top_of(*cx), r.flow),
        entries_targets_ok(top_of(*cx), final(parsed)@),
        r.label == (CfgLabel { layer: top_of(*cx).id, offset: start }),
        nested_labels_sound(r),
        block_follows(bytes, res, hold, lo, hi, r),
        all_parsed_ok(final(parsed)@),
        entries_ok(bytes, res, lo, hi, bound, final(parsed)@),
        entries_linked(top_of(*cx), final(parsed)@),
        successors_kept(top_of(*cx), final(parsed)@),
        forall|o: int|
            has_key(old(parsed)@, o) && is_jump(top_of(*cx), o) && o != start
                ==> #[trigger] has_key(final(parsed)@, o),
{
    let t = cx.layers.len() - 1;
    let ghost top = top_of(*cx);
    let label = CfgLabel { layer: cx.layers[t].id, offset: start };
    let mut actions: Vec<Action> = Vec::new();
    let mut index: usize = start;
    let ghost mut offsets: Seq<int> = seq![start as int];
    proof {
        assert(top == cx.layers@[t as int]);
    }
    loop
        invariant
            t == cx.layers@.len() - 1,
            top == top_of(*cx),
            top == cx.layers@[t as int],
            marks_sorted(top.actions@),
            label == (CfgLabel { layer: top.id, offset: start }),
            all_parsed_ok(parsed@),
            entries_ok(bytes, res, lo, hi, bound, parsed@),
            entries_linked(top, parsed@),
            successors_kept(top, parsed@),
            forall|k: int| 0 <= k < actions@.len() ==> action_labels_sound(#[trigger] actions@[k]),
            has_key(parsed@, index as int),
            only_jumps_reach(top, parsed@, index as int),
            index == start || !is_jump(top, index as int),
            steps_along(bytes, offsets, actions@),
            offsets[0] == start,
            offsets.last() == index,
            actions@.len() == 0 ==> index == start,
            entries_targets_ok(top, parsed@),
            forall|o: int| #[trigger] hold(o) == hold_at(cx.layers@, o),
            forall|o: int|
                has_key(old(parsed)@, o) && is_jump(top, o) && o != start ==> #[trigger] has_key(
                    parsed@,
                    o,
                ),
        decreases parsed@.len(),
    {
        let ghost before = parsed@;
        let taken = take_parsed(parsed, index);
        let ghost pos = choose|i: int|
            0 <= i < before.len() && #[trigger] before[i] == (index, taken->0) && parsed@
                == before.remove(i);
        proof {
            if taken is Some {
                assert(0 <= pos < before.len() && before[pos] == (index, taken->0));
                assert(all_parsed_ok(before) ==> parsed_ok(before[pos].1));
                lemma_take(bytes, res, lo, hi, bound, top, before, pos, index as int);
                assert forall|k: int| 0 <= k < parsed@.len() implies parsed_ok(
                    #[trigger] parsed@[k].1,
                ) by {
                    let kk = if k < pos { k } else { k + 1 };
                    assert(parsed@[k] == before[kk]);
                }
                assert forall|k: int| 0 <= k < parsed@.len() implies match (#[trigger] parsed@[k]).1 {
                    Parsed::Flow(f) => targets_ok(top, f),
                    Parsed::Action(_, _) => true,
                } by {
                    let kk = if k < pos { k } else { k + 1 };
                    assert(parsed@[k] == before[kk]);
                }
            }
        }
        match taken {
            Some(Parsed::Action(next, action)) => {
                proof {
                    assert(entry_ok(bytes, res, lo, hi, bound, before[pos]));
                    assert(action_labels_sound(action));
                }
                let ghost old_actions = actions@;
                actions.push(action);
                proof {
                    let new_offsets = offsets.push(next as int);
                    assert forall|i: int| 0 <= i < actions@.len() implies action_step(
                        bytes,
                        new_offsets[i],
                        #[trigger] actions@[i],
                        new_offsets[i + 1],
                    ) by {
                        if i < old_actions.len() {
                            assert(actions@[i] == old_actions[i]);
                        }
                    }
                    offsets = new_offsets;
                }
                index = next;
            },
            Some(Parsed::Flow(flow)) => {
                proof {
                    assert(entry_ok(bytes, res, lo, hi, bound, before[pos]));
                    assert(before[pos].1 == Parsed::Flow(flow));
                }
                let r = CfgBlock { label, actions, flow };
                proof {
                    assert(block_ends(bytes, res, hold, lo, hi, r, offsets.last()));
                    assert(steps_along(bytes, offsets, r.actions@));
                }
                return r;
            },
            None => {
                proof {
                    assert(false);
                }
                return CfgBlock { label, actions, flow: CfgFlow::Error(raw::Error { error: None }) };
            },
        }
        if let Some(Reachability::Jump) = cx.layers[t].reach_of(index) {
            let next = cx.get_target_label(index);
            let r = CfgBlock { label, actions, flow: CfgFlow::Simple(Simple { next }) };
            proof {
                assert(flow_targets(r.flow)[0] == next);
                assert(is_jump(top, index as int));
                assert(next == hold_at(cx.layers@, index as int));
                assert(next == hold(index as int));
                assert(block_ends(bytes, res, hold, lo, hi, r, offsets.last()));
                assert(steps_along(bytes, offsets, r.actions@));
            }
            return r;
        }
        proof {
            assert(has_mark(top, index as int));
        }
    }
}

/// Measure of the walk of a layer that starts at `start`: nested layers start further on.
spec fn walk_measure(len: int, start: int) -> int {
    if start <= len {
        len + 1 - start
    } else {
        0
    }
}

/// The actions that end no block and nest no body, converted to block actions; every other
/// action is handed back.
pub open spec fn shapes_flow(r: raw::Action) -> bool {
    ||| r is End
    ||| r is Return
    ||| r is Throw
    ||| r is Error
    ||| r is Jump
    ||| r is If
    ||| r is WaitForFrame
    ||| r is WaitForFrame2
    ||| r is With
    ||| r is Try
    ||| r is DefineFunction
    ||| r is DefineFunction2
}

fn plain_action(raw: raw::Action) -> (r: Result<Action, raw::Action>)
    ensures
        r is Err <==> shapes_flow(raw),
        r matches Ok(a) ==> block_action_of(raw, a) && action_labels_sound(a),
        r matches Err(x) ==> x == raw,
{
    match raw {
        raw::Action::Add => Ok(Action::Add),
        raw::Action::Add2 => Ok(Action::Add2),
        raw::Action::And => Ok(Action::And),
        raw::Action::AsciiToChar => Ok(Action::AsciiToChar),
        raw::Action::BitAnd => Ok(Action::BitAnd),
        raw::Action::BitLShift => Ok(Action::BitLShift),
        raw::Action::BitOr => Ok(Action::BitOr),
        raw::Action::BitRShift => Ok(Action::BitRShift),
        raw::Action::BitURShift => Ok(Action::BitURShift),
        raw::Action::BitXor => Ok(Action::BitXor),
        raw::Action::Call => Ok(Action::Call),
        raw::Action::CallFunction => Ok(Action::CallFunction),
        raw::Action::CallMethod => Ok(Action::CallMethod),
        raw::Action::CastOp => Ok(Action::CastOp),
        raw::Action::CharToAscii => Ok(Action::CharToAscii),
        raw::Action::CloneSprite => Ok(Action::CloneSprite),
        raw::Action::Decrement => Ok(Action::Decrement),
        raw::Action::DefineLocal => Ok(Action::DefineLocal),
        raw::Action::DefineLocal2 => Ok(Action::DefineLocal2),
        raw::Action::Delete => Ok(Action::Delete),
        raw::Action::Delete2 => Ok(Action::Delete2),
        raw::Action::Divide => Ok(Action::Divide),
        raw::Action::EndDrag => Ok(Action::EndDrag),
        raw::Action::Enumerate => Ok(Action::Enumerate),
        raw::Action::Enumerate2 => Ok(Action::Enumerate2),
        raw::Action::Equals => Ok(Action::Equals),
        raw::Action::Equals2 => Ok(Action::Equals2),
        raw::Action::Extends => Ok(Action::Extends),
        raw::Action::FsCommand2 => Ok(Action::FsCommand2),
        raw::Action::GetMember => Ok(Action::GetMember),
        raw::Action::GetProperty => Ok(Action::GetProperty),
        raw::Action::GetTime => Ok(Action::GetTime),
        raw::Action::GetVariable => Ok(Action::GetVariable),
        raw::Action::Greater => Ok(Action::Greater),
        raw::Action::ImplementsOp => Ok(Action::ImplementsOp),
        raw::Action::Increment => Ok(Action::Increment),
        raw::Action::InitArray => Ok(Action::InitArray),
        raw::Action::InitObject => Ok(Action::InitObject),
        raw::Action::InstanceOf => Ok(Action::InstanceOf),
        raw::Action::Less => Ok(Action::Less),
        raw::Action::Less2 => Ok(Action::Less2),
        raw::Action::MbAsciiToChar => Ok(Action::MbAsciiToChar),
        raw::Action::MbCharToAscii => Ok(Action::MbCharToAscii),
        raw::Action::MbStringExtract => Ok(Action::MbStringExtract),
        raw::Action::MbStringLength => Ok(Action::MbStringLength),
        raw::Action::Modulo => Ok(Action::Modulo),
        raw::Action::Multiply => Ok(Action::Multiply),
        raw::Action::NewMethod => Ok(Action::NewMethod),
        raw::Action::NewObject => Ok(Action::NewObject),
        raw::Action::NextFrame => Ok(Action::NextFrame),
        raw::Action::Not => Ok(Action::Not),
        raw::Action::Or => Ok(Action::Or),
        raw::Action::Play => Ok(Action::Play),
        raw::Action::Pop => Ok(Action::Pop),
        raw::Action::PrevFrame => Ok(Action::PrevFrame),
        raw::Action::PushDuplicate => Ok(Action::PushDuplicate),
        raw::Action::RandomNumber => Ok(Action::RandomNumber),
        raw::Action::RemoveSprite => Ok(Action::RemoveSprite),
        raw::Action::SetMember => Ok(Action::SetMember),
        raw::Action::SetProperty => Ok(Action::SetProperty),
        raw::Action::SetTarget2 => Ok(Action::SetTarget2),
        raw::Action::SetVariable => Ok(Action::SetVariable),
        raw::Action::StackSwap => Ok(Action::StackSwap),
        raw::Action::StartDrag => Ok(Action::StartDrag),
        raw::Action::Stop => Ok(Action::Stop),
        raw::Action::StopSounds => Ok(Action::StopSounds),
        raw::Action::StrictEquals => Ok(Action::StrictEquals),
        raw::Action::StringAdd => Ok(Action::StringAdd),
        raw::Action::StringEquals => Ok(Action::StringEquals),
        raw::Action::StringExtract => Ok(Action::StringExtract),
        raw::Action::StringGreater => Ok(Action::StringGreater),
        raw::Action::StringLength => Ok(Action::StringLength),
        raw::Action::StringLess => Ok(Action::StringLess),
        raw::Action::Subtract => Ok(Action::Subtract),
        raw::Action::TargetPath => Ok(Action::TargetPath),
        raw::Action::ToInteger => Ok(Action::ToInteger),
        raw::Action::ToNumber => Ok(Action::ToNumber),
        raw::Action::ToString => Ok(Action::ToString),
        raw::Action::ToggleQuality => Ok(Action::ToggleQuality),
        raw::Action::Trace => Ok(Action::Trace),
        raw::Action::TypeOf => Ok(Action::TypeOf),
        raw::Action::ConstantPool(a) => Ok(Action::ConstantPool(a)),
        raw::Action::GetUrl(a) => Ok(Action::GetUrl(a)),
        raw::Action::GetUrl2(a) => Ok(Action::GetUrl2(a)),
        raw::Action::GotoFrame(a) => Ok(Action::GotoFrame(a)),
        raw::Action::GotoFrame2(a) => Ok(Action::GotoFrame2(a)),
        raw::Action::GotoLabel(a) => Ok(Action::GotoLabel(a)),
        raw::Action::Push(a) => Ok(Action::Push(a)),
        raw::Action::Raw(a) => Ok(Action::Raw(a)),
        raw::Action::SetTarget(a) => Ok(Action::SetTarget(a)),
        raw::Action::StoreRegister(a) => Ok(Action::StoreRegister(a)),
        raw::Action::StrictMode(a) => Ok(Action::StrictMode(a)),
        other => Err(other),
    }
}

/// Decodes the action at `cur_offset`, in the range of the top layer, and records where
/// control goes from it: the offset after it, the targets it branches to, and the bodies
/// nested in it, which are walked here.
#[verifier::rlimit(100)]
fn discover_action(
    parser: &Avm1Parser,
    cx: &mut ParseContext,
    idg: &mut IdGen,
    cur_offset: usize,
    Ghost(bound): Ghost<int>,
) -> (r: Parsed)
    requires
        bound == offset_bound(parser.bytes@.len() as int),
        parser.bytes@.len() <= isize::MAX,
        cx_wf(*old(cx), bound),
        top_of(*old(cx)).start <= cur_offset < top_of(*old(cx)).end,
        ids_ordered(*old(cx)),
        ids_issued(*old(cx), old(idg).0),
    ensures
        ids_ordered(*final(cx)),
        ids_issued(*final(cx), final(idg).0),
        final(idg).0 >= old(idg).0,
        r matches Parsed::Flow(f) ==> targets_ok(top_of(*final(cx)), f),
        cx_wf(*final(cx), bound),
        cx_extended(*old(cx), *final(cx), bound),
        parsed_ok(r),
        r matches Parsed::Action(next, _) ==> has_mark(top_of(*final(cx)), next as int) && (
        has_mark(top_of(*old(cx)), next as int) ==> is_jump(top_of(*final(cx)), next as int)),
        r matches Parsed::Action(next, a) ==> cur_offset < next <= bound && action_step(
            parser.bytes@,
            cur_offset as int,
            a,
            next as int,
        ),
        r matches Parsed::Flow(f) ==> flow_step(
            parser.bytes@,
            |o: int| resolve_at(old(cx).layers@, o),
            cur_offset as int,
            f,
        ),
    decreases walk_measure(parser.bytes@.len() as int, top_of(*cx).start as int), 0int,
{
    let ghost start_cx = *cx;
    let ghost start_idg = idg.0;
    let t = cx.layers.len() - 1;
    proof {
        assert(layer_wf(cx.layers@[t as int], bound));
        assert(top_of(*cx) == cx.layers@[t as int]);
    }
    let (end_offset, raw) = parser.get(cur_offset);
    let ghost decoded = raw;
    assert(decoded_at(parser.bytes@, cur_offset as int, end_offset as int, decoded));
    let raw = match plain_action(raw) {
        Ok(action) => {
            cx.linear(end_offset, Ghost(bound));
            let found = Parsed::Action(end_offset, action);
            proof {
                lemma_extended_grown(start_cx, *cx, bound);
                lemma_ids_kept(start_cx, *cx, start_idg, idg.0, bound);
            }
            return found;
        },
        Err(raw) => raw,
    };
    let found = match raw {
        raw::Action::End => Parsed::Flow(CfgFlow::Simple(Simple { next: None })),
        raw::Action::Return => Parsed::Flow(CfgFlow::Return),
        raw::Action::Throw => Parsed::Flow(CfgFlow::Throw),
        raw::Action::Error(a) => Parsed::Flow(CfgFlow::Error(a)),
        raw::Action::Jump(a) => {
            let next = match try_add_offset(end_offset, a.offset) {
                Some(target) => cx.jump(target, Ghost(bound)),
                None => None,
            };
            let f = CfgFlow::Simple(Simple { next });
            assert(flow_targets(f)[0] == next);
            Parsed::Flow(f)
        },
        raw::Action::If(a) => {
            let true_target = match try_add_offset(end_offset, a.offset) {
                Some(target) => cx.jump(target, Ghost(bound)),
                None => None,
            };
            let ghost s1 = *cx;
            assert(cx_extended(start_cx, s1, bound));
            let false_target = cx.jump(end_offset, Ghost(bound));
            proof {
                lemma_extended_grown(start_cx, s1, bound);
                lemma_grown_shape(start_cx, s1, bound);
                lemma_extended_trans(start_cx, s1, *cx, bound);
                lemma_extended_grown(s1, *cx, bound);
                assert(top_of(s1) == s1.layers@[t as int]);
                assert(top_of(*cx) == cx.layers@[t as int]);
                assert(layer_grown(s1.layers@[t as int], cx.layers@[t as int], bound));
                lemma_target_grown(top_of(s1), top_of(*cx), true_target, bound);
            }
            let f = CfgFlow::If(If { true_target, false_target });
            assert(flow_targets(f)[0] == true_target && flow_targets(f)[1] == false_target);
            Parsed::Flow(f)
        },
        raw::Action::WaitForFrame(a) => {
            let loading_offset = parser.skip(end_offset, a.skip as usize);
            let loading_target = cx.jump(loading_offset, Ghost(bound));
            let ghost s1 = *cx;
            let ready_target = cx.jump(end_offset, Ghost(bound));
            proof {
                lemma_extended_grown(start_cx, s1, bound);
                lemma_grown_shape(start_cx, s1, bound);
                lemma_extended_trans(start_cx, s1, *cx, bound);
                lemma_extended_grown(s1, *cx, bound);
                assert(top_of(s1) == s1.layers@[t as int]);
                assert(top_of(*cx) == cx.layers@[t as int]);
                assert(layer_grown(s1.layers@[t as int], cx.layers@[t as int], bound));
                lemma_target_grown(top_of(s1), top_of(*cx), loading_target, bound);
            }
            let f = CfgFlow::WaitForFrame(WaitForFrame { frame: a.frame, loading_target, ready_target });
            assert(flow_targets(f)[0] == loading_target && flow_targets(f)[1] == ready_target);
            Parsed::Flow(f)
        },
        raw::Action::WaitForFrame2(a) => {
            let loading_offset = parser.skip(end_offset, a.skip as usize);
            let loading_target = cx.jump(loading_offset, Ghost(bound));
            let ghost s1 = *cx;
            let ready_target = cx.jump(end_offset, Ghost(bound));
            proof {
                lemma_extended_grown(start_cx, s1, bound);
                lemma_grown_shape(start_cx, s1, bound);
                lemma_extended_trans(start_cx, s1, *cx, bound);
                lemma_extended_grown(s1, *cx, bound);
                assert(top_of(s1) == s1.layers@[t as int]);
                assert(top_of(*cx) == cx.layers@[t as int]);
                assert(layer_grown(s1.layers@[t as int], cx.layers@[t as int], bound));
                lemma_target_grown(top_of(s1), top_of(*cx), loading_target, bound);
            }
            let f = CfgFlow::WaitForFrame2(WaitForFrame2 { loading_target, ready_target });
            assert(flow_targets(f)[0] == loading_target && flow_targets(f)[1] == ready_target);
            Parsed::Flow(f)
        },
        raw::Action::With(a) => {
            let body_end = end_offset + a.size as usize;
            cx.push_layer(idg, end_offset, body_end, Ghost(bound));
            let ghost pushed = *cx;
            let body = parse_into_cfg(parser, cx, idg);
            let ghost walked = *cx;
            cx.pop_layer();
            proof {
                lemma_push_walk_pop(start_cx, pushed, walked, *cx, bound);
                lemma_ids_popped(walked, *cx, idg.0);
                assert(layer_grown(start_cx.layers@[t as int], cx.layers@[t as int], bound));
            }
            let ghost s1 = *cx;
            cx.linear(body_end, Ghost(bound));
            proof {
                lemma_extended_trans(start_cx, s1, *cx, bound);
            }
            Parsed::Flow(CfgFlow::With(With { body }))
        },
        raw::Action::Try(a) => {
            let try_start = end_offset;
            let catch_start = try_start + a.try_size as usize;
            let catch_size: usize = match &a.catch {
                Some(c) => c.size as usize,
                None => 0,
            };
            let finally_start = catch_start + catch_size;
            let ghost pushed_finally = *cx;
            let finally = match a.finally {
                Some(finally_size) => {
                    cx.push_layer(
                        idg,
                        finally_start,
                        finally_start + finally_size as usize,
                        Ghost(bound),
                    );
                    proof {
                        pushed_finally = *cx;
                    }
                    Some(parse_into_cfg(parser, cx, idg))
                },
                None => None,
            };
            let ghost with_finally = *cx;
            cx.push_layer(idg, try_start, catch_start, Ghost(bound));
            let ghost pushed = *cx;
            let try_body = parse_into_cfg(parser, cx, idg);
            let ghost walked = *cx;
            cx.pop_layer();
            proof {
                lemma_push_walk_pop(with_finally, pushed, walked, *cx, bound);
                lemma_ids_popped(walked, *cx, idg.0);
            }
            let ghost after_try = *cx;
            let catch = match a.catch {
                Some(c) => {
                    cx.push_layer(idg, catch_start, catch_start + c.size as usize, Ghost(bound));
                    let ghost pushed_catch = *cx;
                    let body = parse_into_cfg(parser, cx, idg);
                    let ghost walked_catch = *cx;
                    cx.pop_layer();
                    proof {
                        lemma_push_walk_pop(after_try, pushed_catch, walked_catch, *cx, bound);
                        lemma_ids_popped(walked_catch, *cx, idg.0);
                    }
                    Some(CatchBlock { target: c.target, body })
                },
                None => None,
            };
            proof {
                lemma_extended_trans(with_finally, after_try, *cx, bound);
            }
            if finally.is_some() {
                let ghost walked_finally = *cx;
                cx.pop_layer();
                proof {
                    lemma_extended_grown(with_finally, walked_finally, bound);
                        lemma_grown_trans(pushed_finally, with_finally, walked_finally, bound);
                    lemma_push_walk_pop(start_cx, pushed_finally, walked_finally, *cx, bound);
                    lemma_ids_popped(walked_finally, *cx, idg.0);
                }
            }
            proof {
                assert(cx_extended(start_cx, *cx, bound));
            }
            Parsed::Flow(CfgFlow::Try(Try { try_body, catch, finally }))
        },
        raw::Action::DefineFunction(a) => {
            let fn_end = end_offset + a.body_size as usize;
            let mut child = ParseContext::new(idg, end_offset, fn_end, Ghost(bound));
            let body = parse_into_cfg(parser, &mut child, idg);
            cx.linear(fn_end, Ghost(bound));
            Parsed::Action(
                fn_end,
                Action::DefineFunction(DefineFunction { name: a.name, parameters: a.parameters, body }),
            )
        },
        raw::Action::DefineFunction2(a) => {
            let fn_end = end_offset + a.body_size as usize;
            let mut child = ParseContext::new(idg, end_offset, fn_end, Ghost(bound));
            let body = parse_into_cfg(parser, &mut child, idg);
            cx.linear(fn_end, Ghost(bound));
            Parsed::Action(
                fn_end,
                Action::DefineFunction2(
                    DefineFunction2 {
                        name: a.name,
                        register_count: a.register_count,
                        preload_this: a.preload_this,
                        suppress_this: a.suppress_this,
                        preload_arguments: a.preload_arguments,
                        suppress_arguments: a.suppress_arguments,
                        preload_super: a.preload_super,
                        suppress_super: a.suppress_super,
                        preload_root: a.preload_root,
                        preload_parent: a.preload_parent,
                        preload_global: a.preload_global,
                        parameters: a.parameters,
                        body,
                    },
                ),
            )
        },
        _ => {
            proof {
                assert(false);
            }
            Parsed::Flow(CfgFlow::Return)
        },
    };
    proof {
        lemma_extended_grown(start_cx, *cx, bound);
        lemma_ids_kept(start_cx, *cx, start_idg, idg.0, bound);
    }
    found
}

proof fn lemma_cover_after_pop(
    before: LayerContext,
    after: LayerContext,
    parsed: Seq<(usize, Parsed)>,
    cur: usize,
)
    requires
        marks_covered(before, parsed),
        after.actions@ == before.actions@,
        before.new_actions@.len() > 0,
        after.new_actions@ == before.new_actions@.drop_last(),
        cur == before.new_actions@.last(),
    ensures
        forall|o: int|
            #[trigger] has_mark(after, o) ==> is_pending(after, o) || has_key(parsed, o) || o
                == cur,
{
    assert forall|o: int| #[trigger] has_mark(after, o) implies is_pending(after, o) || has_key(
        parsed,
        o,
    ) || o == cur by {
        let k = choose|k: int| 0 <= k < after.actions@.len() && #[trigger] after.actions@[k].offset == o;
        assert(before.actions@[k].offset == o);
        assert(has_mark(before, o));
        if is_pending(before, o) && o != cur {
            let j = choose|j: int|
                0 <= j < before.new_actions@.len() && #[trigger] before.new_actions@[j] == o;
            assert(j < before.new_actions@.len() - 1);
            assert(after.new_actions@[j] == o);
        }
    }
}

/// Recording what was found at `cur` keeps the entries sound, linked and covering.
proof fn lemma_record(
    bytes: Seq<u8>,
    res: spec_fn(int) -> Option<CfgLabel>,
    lo: int,
    hi: int,
    bound: int,
    old_top: LayerContext,
    new_top: LayerContext,
    old_parsed: Seq<(usize, Parsed)>,
    cur: usize,
    p: Parsed,
)
    requires
        entries_ok(bytes, res, lo, hi, bound, old_parsed),
        entry_ok(bytes, res, lo, hi, bound, (cur, p)),
        entries_linked(old_top, old_parsed),
        layer_extended(old_top, new_top, bound),
        next_of(p) matches Some(n) ==> has_mark(new_top, n as int) && (has_mark(old_top, n as int)
            ==> is_jump(new_top, n as int)),
        forall|o: int|
            #[trigger] has_mark(old_top, o) ==> is_pending(old_top, o) || has_key(old_parsed, o) || o
                == cur,
    ensures
        entries_ok(bytes, res, lo, hi, bound, old_parsed.push((cur, p))),
        entries_linked(new_top, old_parsed.push((cur, p))),
        marks_covered(new_top, old_parsed.push((cur, p))),
{
    let new_parsed = old_parsed.push((cur, p));
    let last = old_parsed.len() as int;
    assert forall|k: int| 0 <= k < new_parsed.len() implies entry_ok(
        bytes,
        res,
        lo,
        hi,
        bound,
        #[trigger] new_parsed[k],
    ) by {
        if k < last {
            assert(new_parsed[k] == old_parsed[k]);
        }
    }
    lemma_linked_grown(old_top, new_top, old_parsed, bound);
    assert forall|k: int|
        0 <= k < new_parsed.len() && (#[trigger] next_of(new_parsed[k].1)) is Some implies has_mark(
        new_top,
        next_of(new_parsed[k].1)->0 as int,
    ) by {
        if k < last {
            assert(new_parsed[k] == old_parsed[k]);
        }
    }
    assert forall|a: int, b: int|
        0 <= a < new_parsed.len() && 0 <= b < new_parsed.len() && a != b && (#[trigger] next_of(
            new_parsed[a].1,
        )) is Some && next_of(new_parsed[a].1) == #[trigger] next_of(new_parsed[b].1) implies is_jump(
        new_top,
        next_of(new_parsed[a].1)->0 as int,
    ) by {
        let n = next_of(new_parsed[a].1)->0 as int;
        if a < last && b < last {
            assert(new_parsed[a] == old_parsed[a]);
            assert(new_parsed[b] == old_parsed[b]);
        } else if a == last {
            assert(new_parsed[b] == old_parsed[b]);
            assert(next_of(old_parsed[b].1) is Some);
            assert(has_mark(old_top, n));
        } else {
            assert(new_parsed[a] == old_parsed[a]);
            assert(next_of(old_parsed[a].1) is Some);
            assert(has_mark(old_top, n));
        }
    }
    assert forall|o: int| #[trigger] has_mark(new_top, o) implies is_pending(new_top, o) || has_key(
        new_parsed,
        o,
    ) by {
        if has_mark(old_top, o) {
            if is_pending(old_top, o) {
            } else if has_key(old_parsed, o) {
                let k = choose|k: int| 0 <= k < old_parsed.len() && #[trigger] old_parsed[k].0 == o;
                assert(new_parsed[k].0 == o);
            } else {
                assert(new_parsed[last].0 == o);
            }
        }
    }
}
/// Walks the top layer of `cx` and returns its graph; nested layers are walked on the way.
fn parse_into_cfg(parser: &Avm1Parser, cx: &mut ParseContext, idg: &mut IdGen) -> (r: Cfg)
    requires
        parser.bytes@.len() <= isize::MAX,
        cx_wf(*old(cx), offset_bound(parser.bytes@.len() as int)),
        fresh(top_of(*old(cx))),
        ids_ordered(*old(cx)),
        ids_issued(*old(cx), old(idg).0),
    ensures
        ids_ordered(*final(cx)),
        ids_issued(*final(cx), final(idg).0),
        final(idg).0 >= old(idg).0,
        cx_wf(*final(cx), offset_bound(parser.bytes@.len() as int)),
        cx_grown(*old(cx), *final(cx), offset_bound(parser.bytes@.len() as int)),
        cfg_ordered(r, top_of(*old(cx)).id, top_of(*old(cx)).start as int),
        labels_sound(r),
        forall|k: int|
            0 <= k < r.blocks@.len() ==> block_follows(
                parser.bytes@,
                |o: int| resolve_at(old(cx).layers@, o),
                |o: int| hold_at(old(cx).layers@, o),
                top_of(*old(cx)).start as int,
                top_of(*old(cx)).end as int,
                #[trigger] r.blocks@[k],
            ),
    decreases walk_measure(parser.bytes@.len() as int, top_of(*cx).start as int), 1int,
{
    let ghost bound = offset_bound(parser.bytes@.len() as int);
    let ghost entry = *cx;
    let len = parser.bytes.len();
    let t = cx.layers.len() - 1;
    let mut parsed: Vec<(usize, Parsed)> = Vec::new();
    let ghost res = |o: int| resolve_at(entry.layers@, o);
    let ghost hold = |o: int| hold_at(entry.layers@, o);
    proof {
        lemma_fresh_covered(top_of(*cx));
        assert(parsed@ =~= seq![]);
    }
    loop
        invariant
            bound == offset_bound(len as int),
            len == parser.bytes@.len() <= isize::MAX,
            t == entry.layers@.len() - 1,
            entry == *old(cx),
            cx_wf(entry, bound),
            cx_wf(*cx, bound),
            cx_grown(entry, *cx, bound),
            all_parsed_ok(parsed@),
            res == (|o: int| resolve_at(entry.layers@, o)),
            entries_ok(parser.bytes@, res, top_of(entry).start as int, top_of(entry).end as int, bound, parsed@),
            entries_linked(top_of(*cx), parsed@),
            marks_covered(top_of(*cx), parsed@),
            ids_ordered(*cx),
            ids_issued(*cx, idg.0),
            idg.0 >= old(idg).0,
            entries_targets_ok(top_of(*cx), parsed@),
        ensures
            top_of(*cx).new_actions@.len() == 0,
        decreases layer_measure(top_of(*cx), bound),
    {
        proof {
            lemma_layer_measure_nonneg(top_of(*cx), bound);
        }
        let ghost before = *cx;
        let cur_offset = match cx.pop_action(Ghost(bound)) {
            Some(o) => o,
            None => {
                proof {
                    assert(top_of(before) == before.layers@[t as int]);
                    assert(top_of(*cx) == cx.layers@[t as int]);
                    assert(layer_grown(before.layers@[t as int], cx.layers@[t as int], bound));
                    lemma_linked_grown(top_of(before), top_of(*cx), parsed@, bound);
                    assert forall|k: int| 0 <= k < parsed@.len() implies match (#[trigger] parsed@[k]).1 {
                        Parsed::Flow(f) => targets_ok(top_of(*cx), f),
                        Parsed::Action(_, _) => true,
                    } by {
                        if let Parsed::Flow(f) = parsed@[k].1 {
                            lemma_targets_grown(top_of(before), top_of(*cx), f, bound);
                        }
                    }
                    assert forall|o: int| #[trigger] has_mark(top_of(*cx), o) implies is_pending(
                        top_of(*cx),
                        o,
                    ) || has_key(parsed@, o) by {
                        let k = choose|k: int|
                            0 <= k < top_of(*cx).actions@.len() && #[trigger] top_of(
                                *cx,
                            ).actions@[k].offset == o;
                        assert(top_of(before).actions@[k].offset == o);
                        assert(has_mark(top_of(before), o));
                    }
                }
                break;
            },
        };
        let ghost after_pop = *cx;
        proof {
            lemma_ids_kept(before, after_pop, idg.0, idg.0, bound);
            lemma_grown_trans(entry, before, after_pop, bound);
            lemma_grown_shape(entry, after_pop, bound);
            assert((|o: int| resolve_at(after_pop.layers@, o)) =~= res);
            assert(layer_wf(cx.layers@[t as int], bound));
            assert(top_of(*cx) == cx.layers@[t as int]);
            assert(top_of(before) == before.layers@[t as int]);
            assert(top_of(entry) == entry.layers@[t as int]);
            assert(layer_grown(before.layers@[t as int], cx.layers@[t as int], bound));
            assert(layer_grown(entry.layers@[t as int], cx.layers@[t as int], bound));
            lemma_linked_grown(top_of(before), top_of(after_pop), parsed@, bound);
            lemma_cover_after_pop(top_of(before), top_of(after_pop), parsed@, cur_offset);
            assert forall|k: int| 0 <= k < parsed@.len() implies match (#[trigger] parsed@[k]).1 {
                Parsed::Flow(f) => targets_ok(top_of(after_pop), f),
                Parsed::Action(_, _) => true,
            } by {
                if let Parsed::Flow(f) = parsed@[k].1 {
                    lemma_targets_grown(top_of(before), top_of(after_pop), f, bound);
                }
            }
        }
        if !cx.layers[t].contains(cur_offset) {
            let next = cx.jump(cur_offset, Ghost(bound));
            proof {
                lemma_extended_grown(after_pop, *cx, bound);
                lemma_ids_kept(after_pop, *cx, idg.0, idg.0, bound);
            }
            let ghost old_parsed = parsed@;
            let ghost entry_top = top_of(entry);
            proof {
                assert(cx.layers@[t as int] == top_of(*cx));
                assert(layer_extended(after_pop.layers@[t as int], cx.layers@[t as int], bound));
                assert(next == res(cur_offset as int));
                assert(leaves_layer(
                    entry_top.start as int,
                    entry_top.end as int,
                    res,
                    cur_offset as int,
                    CfgFlow::Simple(Simple { next }),
                ));
                lemma_record(
                    parser.bytes@,
                    res,
                    entry_top.start as int,
                    entry_top.end as int,
                    bound,
                    top_of(after_pop),
                    top_of(*cx),
                    old_parsed,
                    cur_offset,
                    Parsed::Flow(CfgFlow::Simple(Simple { next })),
                );
                assert(flow_targets(CfgFlow::Simple(Simple { next }))[0] == next);
                lemma_targets_record(
                    top_of(after_pop),
                    top_of(*cx),
                    old_parsed,
                    (cur_offset, Parsed::Flow(CfgFlow::Simple(Simple { next }))),
                    bound,
                );
            }
            parsed.push((cur_offset, Parsed::Flow(CfgFlow::Simple(Simple { next }))));
            proof {
                assert forall|k: int| 0 <= k < parsed@.len() implies parsed_ok(#[trigger] parsed@[k].1) by {
                    if k < parsed@.len() - 1 {
                        assert(parsed@[k] == old_parsed[k]);
                    }
                }
                lemma_grown_trans(entry, after_pop, *cx, bound);
                assert(layer_grown(after_pop.layers@[t as int], cx.layers@[t as int], bound));
                assert(top_of(*cx) == cx.layers@[t as int]);
                assert(top_of(after_pop) == after_pop.layers@[t as int]);
                assert(top_of(before) == before.layers@[t as int]);
                lemma_layer_measure_nonneg(top_of(*cx), bound);
            }
            continue;
        }
        let ghost old_parsed = parsed@;
        let cur_parsed = discover_action(parser, cx, idg, cur_offset, Ghost(bound));
        proof {
            lemma_extended_grown(after_pop, *cx, bound);
        }
        assert(parsed_ok(cur_parsed));
        proof {
            let entry_top = top_of(entry);
            assert(cx.layers@[t as int] == top_of(*cx));
            assert(layer_extended(after_pop.layers@[t as int], cx.layers@[t as int], bound));
            lemma_record(
                parser.bytes@,
                res,
                entry_top.start as int,
                entry_top.end as int,
                bound,
                top_of(after_pop),
                top_of(*cx),
                old_parsed,
                cur_offset,
                cur_parsed,
            );
            lemma_targets_record(top_of(after_pop), top_of(*cx), old_parsed, (cur_offset, cur_parsed), bound);
        }
        parsed.push((cur_offset, cur_parsed));
        proof {
            assert forall|k: int| 0 <= k < parsed@.len() implies parsed_ok(#[trigger] parsed@[k].1) by {
                if k < parsed@.len() - 1 {
                    assert(parsed@[k] == old_parsed[k]);
                }
            }
            lemma_grown_trans(entry, after_pop, *cx, bound);
            assert(layer_grown(after_pop.layers@[t as int], cx.layers@[t as int], bound));
            assert(top_of(*cx) == cx.layers@[t as int]);
            assert(top_of(after_pop) == after_pop.layers@[t as int]);
            assert(top_of(before) == before.layers@[t as int]);
            lemma_layer_measure_nonneg(top_of(*cx), bound);
        }
    }
    let ghost lo = top_of(entry).start as int;
    let ghost hi = top_of(entry).end as int;
    proof {
        lemma_grown_shape(entry, *cx, bound);
        assert(layer_wf(cx.layers@[t as int], bound));
        assert(top_of(*cx) == cx.layers@[t as int]);
        assert(top_of(entry) == entry.layers@[t as int]);
        assert(layer_grown(entry.layers@[t as int], cx.layers@[t as int], bound));
        let top = top_of(*cx);
        assert forall|o: int| #[trigger] has_mark(top, o) implies has_key(parsed@, o) by {
            if is_pending(top, o) {
                let j = choose|j: int| 0 <= j < top.new_actions@.len() && #[trigger] top.new_actions@[j] == o;
            }
        }
        assert forall|k: int|
            0 <= k < parsed@.len() && (#[trigger] next_of(parsed@[k].1)) is Some && !is_jump(
                top,
                next_of(parsed@[k].1)->0 as int,
            ) implies has_key(parsed@, next_of(parsed@[k].1)->0 as int) by {
            assert(has_mark(top, next_of(parsed@[k].1)->0 as int));
        }
        assert forall|j: int| 0 <= j < top.actions@.len() implies has_key(
            parsed@,
            (#[trigger] top.actions@[j]).offset as int,
        ) by {
            assert(has_mark(top, top.actions@[j].offset as int));
        }
    }
    let layer_id = cx.layers[t].id;
    let n = cx.layers[t].actions.len();
    let mut blocks: Vec<CfgBlock> = Vec::new();
    let mut i: usize = 0;
    while i < n
        invariant
            t == cx.layers@.len() - 1,
            cx_wf(*cx, bound),
            n == top_of(*cx).actions@.len(),
            layer_id == top_of(*cx).id,
            i <= n,
            i == 0 ==> blocks@.len() == 0,
            all_parsed_ok(parsed@),
            lo == top_of(*cx).start && hi == top_of(*cx).end,
            res == (|o: int| resolve_at(entry.layers@, o)),
            hold == (|o: int| hold_at(entry.layers@, o)),
            forall|o: int| #[trigger] hold(o) == hold_at(cx.layers@, o),
            entry == *old(cx),
            entries_ok(parser.bytes@, res, lo, hi, bound, parsed@),
            entries_linked(top_of(*cx), parsed@),
            successors_kept(top_of(*cx), parsed@),
            forall|j: int|
                i <= j < n && (#[trigger] top_of(*cx).actions@[j]).reach == Reachability::Jump
                    ==> has_key(parsed@, top_of(*cx).actions@[j].offset as int),
            forall|k: int|
                0 <= k < blocks@.len() ==> block_follows(parser.bytes@, res, hold, lo, hi, #[trigger] blocks@[k]),
            entries_targets_ok(top_of(*cx), parsed@),
            forall|k: int| 0 <= k < blocks@.len() ==> targets_ok(top_of(*cx), (#[trigger] blocks@[k]).flow),
            forall|j: int|
                0 <= j < i && (#[trigger] top_of(*cx).actions@[j]).reach == Reachability::Jump
                    ==> exists|m: int|
                    0 <= m < blocks@.len() && blocks@[m].label == (CfgLabel {
                        layer: layer_id,
                        offset: top_of(*cx).actions@[j].offset,
                    }),
            forall|k: int| 0 <= k < blocks@.len() ==> nested_labels_sound(#[trigger] blocks@[k]),
            i > 0 ==> blocks@.len() > 0 && blocks@[0].label.offset == top_of(*cx).start,
            forall|k: int| 0 <= k < blocks@.len() ==> (#[trigger] blocks@[k]).label.layer == layer_id,
            forall|k: int|
                0 <= k < blocks@.len() && i < n ==> (#[trigger] blocks@[k]).label.offset
                    < top_of(*cx).actions@[i as int].offset,
            forall|a: int, b: int|
                0 <= a < b < blocks@.len() ==> blocks@[a].label.offset < blocks@[b].label.offset,
        decreases n - i,
    {
        assert(layer_wf(cx.layers@[t as int], bound));
        assert(top_of(*cx) == cx.layers@[t as int]);
        let m = cx.layers[t].actions[i];
        assert(i == 0 ==> m == top_of(*cx).actions@[0]);
        assert(i == 0 ==> m.reach == Reachability::Jump);
        if m.reach == Reachability::Jump {
            proof {
                assert(is_jump(top_of(*cx), m.offset as int));
                assert(has_key(parsed@, m.offset as int));
            }
            let ghost before_parsed = parsed@;
            let block = build_block(
                cx,
                &mut parsed,
                m.offset,
                Ghost(parser.bytes@),
                Ghost(res),
                Ghost(hold),
                Ghost(lo),
                Ghost(hi),
                Ghost(bound),
            );
            assert(block.label.offset == m.offset);
            proof {
                let top = top_of(*cx);
                assert forall|j: int|
                    i < j < n && (#[trigger] top.actions@[j]).reach == Reachability::Jump implies has_key(
                    parsed@,
                    top.actions@[j].offset as int,
                ) by {
                    assert(top.actions@[i as int].offset < top.actions@[j].offset);
                    assert(has_key(before_parsed, top.actions@[j].offset as int));
                    assert(is_jump(top, top.actions@[j].offset as int));
                }
            }
            let ghost old_blocks = blocks@;
            blocks.push(block);
            proof {
                let top = top_of(*cx);
                assert(blocks@[old_blocks.len() as int].label == (CfgLabel { layer: layer_id, offset: m.offset }));
                assert forall|j: int|
                    0 <= j < i + 1 && (#[trigger] top.actions@[j]).reach == Reachability::Jump implies exists|mm: int|
                    0 <= mm < blocks@.len() && blocks@[mm].label == (CfgLabel {
                        layer: layer_id,
                        offset: top.actions@[j].offset,
                    }) by {
                    if j < i {
                        let mm = choose|mm: int|
                            0 <= mm < old_blocks.len() && old_blocks[mm].label == (CfgLabel {
                                layer: layer_id,
                                offset: top.actions@[j].offset,
                            });
                        assert(blocks@[mm] == old_blocks[mm]);
                    } else {
                        assert(blocks@[old_blocks.len() as int].label == (CfgLabel {
                            layer: layer_id,
                            offset: top.actions@[j].offset,
                        }));
                    }
                }
                assert forall|k: int| 0 <= k < blocks@.len() implies targets_ok(top, (#[trigger] blocks@[k]).flow) by {
                    if k < old_blocks.len() {
                        assert(blocks@[k] == old_blocks[k]);
                    }
                }
                assert forall|k: int| 0 <= k < blocks@.len() implies block_follows(
                    parser.bytes@,
                    res,
                    hold,
                    lo,
                    hi,
                    #[trigger] blocks@[k],
                ) by {
                    if k < old_blocks.len() {
                        assert(blocks@[k] == old_blocks[k]);
                    }
                }
            }
        }
        i = i + 1;
    }
    let r = Cfg { blocks };
    proof {
        let top = top_of(*cx);
        if layer_id < u64::MAX {
            assert forall|k: int, j: int|
                0 <= k < r.blocks@.len() && 0 <= j < flow_targets(r.blocks@[k].flow).len() implies match
                #[trigger] flow_targets(r.blocks@[k].flow)[j] {
                Some(l) => l.layer == layer_id ==> names_block(r, l),
                None => true,
            } by {
                assert(targets_ok(top, r.blocks@[k].flow));
                assert(target_ok(top, flow_targets(r.blocks@[k].flow)[j]));
                if let Some(l) = flow_targets(r.blocks@[k].flow)[j] {
                    if l.layer == layer_id {
                        assert(is_jump(top, l.offset as int));
                        let jj = choose|jj: int|
                            0 <= jj < top.actions@.len() && #[trigger] top.actions@[jj].offset
                                == l.offset && top.actions@[jj].reach == Reachability::Jump;
                        assert(top.actions@[jj].reach == Reachability::Jump);
                        let mm = choose|mm: int|
                            0 <= mm < blocks@.len() && blocks@[mm].label == (CfgLabel {
                                layer: layer_id,
                                offset: top.actions@[jj].offset,
                            });
                        assert(r.blocks@[mm].label == l);
                    }
                }
            }
        }
    }
    assert(labels_sound(r));
    r
}

/// The label of a branch to `o` in a program of `n` bytes: offsets of the program are
/// blocks of layer `0`; a branch anywhere else leaves the program.
pub open spec fn program_label(n: int, o: int) -> Option<CfgLabel> {
    if 0 <= o < n {
        Some(CfgLabel { layer: 0, offset: o as usize })
    } else {
        None
    }
}

/// Builds the control-flow graph of a whole program. Its layer is `0` and its entry is
/// the first byte. In it, and in every graph nested in it, no two blocks share a label,
/// and a label of the graph's own layer that a flow names is that of one of its blocks.
/// Each block holds what the program holds from the block's offset on: the actions met
/// falling through, then the flow of the action that ends it, or a continuation to the
/// offset where the next block starts or where control leaves the program.
pub fn parse_cfg(avm1: &[u8]) -> (r: Cfg)
    requires
        avm1@.len() <= isize::MAX,
    ensures
        cfg_ordered(r, 0, 0),
        labels_sound(r),
        forall|k: int|
            0 <= k < r.blocks@.len() ==> block_follows(
                avm1@,
                |o: int| program_label(avm1@.len() as int, o),
                |o: int| program_label(avm1@.len() as int, o),
                0,
                avm1@.len() as int,
                #[trigger] r.blocks@[k],
            ),
{
    let mut idg = IdGen::new();
    let parser = Avm1Parser::new(avm1);
    let mut parse_cx = ParseContext::new(&mut idg, 0, avm1.len(), Ghost(offset_bound(avm1@.len() as int)));
    let ghost layers = parse_cx.layers@;
    let r = parse_into_cfg(&parser, &mut parse_cx, &mut idg);
    proof {
        let n = avm1@.len() as int;
        assert forall|o: int| #[trigger] resolve_at(layers, o) == program_label(n, o) by {
            assert(owner_below(layers, o, 0) is None);
        }
        assert forall|o: int| #[trigger] hold_at(layers, o) == program_label(n, o) by {
            assert(holder_below(layers, o, 0) is None);
        }
        assert((|o: int| resolve_at(layers, o)) =~= (|o: int| program_label(n, o)));
        assert((|o: int| hold_at(layers, o)) =~= (|o: int| program_label(n, o)));
    }
    r
}

} // verus!
