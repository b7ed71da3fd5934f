//! Decoding of one action: its header, then its body by the action's code.
//!
//! Each body layout is described by two spec functions: `*_end(b)`, the number of bytes
//! the layout takes at the start of `b` (`None` when `b` does not hold it), and
//! `*_is(b, x)`, that `x` is the value it encodes.
use vstd::prelude::*;
use crate::bytes::{
    c_string_at, le32_f64_bits_at, le32_f64_bytes, lemma_le32_f64_round_trip, le_i16_at, le_i32_at, le_u16_at, le_u32_at, read_c_string,
    read_le32_f64_bits, read_le_i16, read_le_i32, read_le_u16, read_le_u32,
};
use crate::raw::{
    Action, CatchBlock, CatchTarget, ConstantPool, DefineFunction, DefineFunction2, Error,
    GetUrl, GetUrl2, GetUrl2Method, GotoFrame, GotoFrame2, GotoLabel, If, Jump, Parameter, Push,
    PushValue, Raw, SetTarget, StoreRegister, StrictMode, Try, WaitForFrame, WaitForFrame2, With,
};

verus! {

/// The header of an action: its code, and the length of the body that follows.
#[derive(Debug, PartialEq, Eq, Structural)]
pub struct ActionHeader {
    pub code: u8,
    pub length: usize,
}

/// Why bytes could not be decoded.
#[derive(Clone, Debug, PartialEq, Eq, Structural)]
pub enum ParseError {
    /// The input ends too early: this many bytes are needed, counted from its start.
    Incomplete(usize),
    /// The bytes do not follow the expected layout.
    Invalid,
}

/// Bytes taken by a header whose first byte is `code`.
pub open spec fn header_size(code: u8) -> int {
    if code < 0x80 {
        1
    } else {
        3
    }
}

/// `b` starts with a whole header.
pub open spec fn has_header(b: Seq<u8>) -> bool {
    b.len() >= 1 && b.len() >= header_size(b[0])
}

/// The header at the start of `b`.
pub open spec fn header_of(b: Seq<u8>) -> ActionHeader {
    ActionHeader {
        code: b[0],
        length: if b[0] < 0x80 {
            0
        } else {
            le_u16_at(b, 1) as usize
        },
    }
}

/// Bytes taken by the action at the start of `b`, header and body.
pub open spec fn action_size(b: Seq<u8>) -> int {
    header_size(b[0]) + header_of(b).length
}

/// The body of the action at the start of `b`.
pub open spec fn body_of(b: Seq<u8>) -> Seq<u8> {
    b.subrange(header_size(b[0]), action_size(b))
}

/// Bytes that a decoder needs to see before it can decode the action at the start of `b`.
pub open spec fn bytes_needed(b: Seq<u8>) -> int {
    if b.len() == 0 {
        1
    } else if !has_header(b) {
        3
    } else {
        action_size(b)
    }
}

pub fn parse_action_header(input: &[u8]) -> (r: Result<(&[u8], ActionHeader), ParseError>)
    ensures
        r is Ok <==> has_header(input@),
        r matches Ok((rest, h)) ==> h == header_of(input@) && rest@ == input@.skip(
            header_size(h.code),
        ),
        r matches Err(e) ==> e == ParseError::Incomplete(bytes_needed(input@) as usize),
{
    let len = input.len();
    if len == 0 {
        return Err(ParseError::Incomplete(1));
    }
    let code = input[0];
    if code < 0x80 {
        Ok((vstd::slice::slice_subrange(input, 1, len), ActionHeader { code, length: 0 }))
    } else if len < 3 {
        Err(ParseError::Incomplete(3))
    } else {
        let length = read_le_u16(input, 1) as usize;
        Ok((vstd::slice::slice_subrange(input, 3, len), ActionHeader { code, length }))
    }
}

// Sequences of strings and parameters, specified from their last item back, the order
// in which they are read.

/// End of `n` consecutive nul-terminated strings starting at `i`.
pub open spec fn c_strings_end(b: Seq<u8>, i: int, n: nat) -> Option<int>
    decreases n,
{
    if n == 0 {
        Some(i)
    } else {
        match c_strings_end(b, i, (n - 1) as nat) {
            Some(p) => match c_string_at(b, p) {
                Some((e, _)) => Some(e),
                None => None,
            },
            None => None,
        }
    }
}

/// The `n` consecutive nul-terminated strings starting at `i`.
pub open spec fn c_strings_value(b: Seq<u8>, i: int, n: nat) -> Seq<Seq<char>>
    decreases n,
{
    if n == 0 {
        seq![]
    } else {
        let prev = c_strings_value(b, i, (n - 1) as nat);
        match c_strings_end(b, i, (n - 1) as nat) {
            Some(p) => match c_string_at(b, p) {
                Some((_, s)) => prev.push(s),
                None => prev,
            },
            None => prev,
        }
    }
}

/// The strings `ss` hold the characters `cs`, one for one.
pub open spec fn strings_are(ss: Seq<String>, cs: Seq<Seq<char>>) -> bool {
    ss.len() == cs.len() && forall|k: int| 0 <= k < ss.len() ==> #[trigger] ss[k]@ == cs[k]
}

proof fn lemma_c_strings_fail(b: Seq<u8>, i: int, m: nat, n: nat)
    requires
        m <= n,
        c_strings_end(b, i, m) is None,
    ensures
        c_strings_end(b, i, n) is None,
    decreases n - m,
{
    if m < n {
        lemma_c_strings_fail(b, i, m, (n - 1) as nat);
    }
}

/// Reads `count` nul-terminated strings starting at `start`.
fn read_c_strings(b: &[u8], start: usize, count: u16) -> (r: Option<(usize, Vec<String>)>)
    requires
        start <= b@.len(),
    ensures
        r is Some <==> c_strings_end(b@, start as int, count as nat) is Some,
        r matches Some((e, ss)) ==> e == c_strings_end(b@, start as int, count as nat)->0
            && strings_are(ss@, c_strings_value(b@, start as int, count as nat)),
{
    let mut pos: usize = start;
    let mut strings: Vec<String> = Vec::new();
    let mut k: u16 = 0;
    while k < count
        invariant
            k <= count,
            pos <= b@.len(),
            c_strings_end(b@, start as int, k as nat) == Some(pos as int),
            strings_are(strings@, c_strings_value(b@, start as int, k as nat)),
        decreases count - k,
    {
        match read_c_string(b, pos) {
            Some((next, s)) => {
                strings.push(s);
                pos = next;
                k = k + 1;
            },
            None => {
                proof {
                    lemma_c_strings_fail(b@, start as int, (k + 1) as nat, count as nat);
                }
                return None;
            },
        }
    }
    Some((pos, strings))
}

/// A parameter of a `DefineFunction2` at `i`: a register byte, then a nul-terminated
/// name. Gives the end, the register and the name.
pub open spec fn parameter_at(b: Seq<u8>, i: int) -> Option<(int, u8, Seq<char>)> {
    if 0 <= i < b.len() {
        match c_string_at(b, i + 1) {
            Some((e, s)) => Some((e, b[i], s)),
            None => None,
        }
    } else {
        None
    }
}

/// End of `n` consecutive parameters starting at `i`.
pub open spec fn parameters_end(b: Seq<u8>, i: int, n: nat) -> Option<int>
    decreases n,
{
    if n == 0 {
        Some(i)
    } else {
        match parameters_end(b, i, (n - 1) as nat) {
            Some(p) => match parameter_at(b, p) {
                Some((e, _, _)) => Some(e),
                None => None,
            },
            None => None,
        }
    }
}

/// The `n` consecutive parameters starting at `i`.
pub open spec fn parameters_value(b: Seq<u8>, i: int, n: nat) -> Seq<(u8, Seq<char>)>
    decreases n,
{
    if n == 0 {
        seq![]
    } else {
        let prev = parameters_value(b, i, (n - 1) as nat);
        match parameters_end(b, i, (n - 1) as nat) {
            Some(p) => match parameter_at(b, p) {
                Some((_, r, s)) => prev.push((r, s)),
                None => prev,
            },
            None => prev,
        }
    }
}

/// The parameters `ps` hold the registers and names `vs`, one for one.
pub open spec fn parameters_are(ps: Seq<Parameter>, vs: Seq<(u8, Seq<char>)>) -> bool {
    ps.len() == vs.len() && forall|k: int|
        0 <= k < ps.len() ==> #[trigger] ps[k].register == vs[k].0 && ps[k].name@ == vs[k].1
}

proof fn lemma_parameters_fail(b: Seq<u8>, i: int, m: nat, n: nat)
    requires
        m <= n,
        parameters_end(b, i, m) is None,
    ensures
        parameters_end(b, i, n) is None,
    decreases n - m,
{
    if m < n {
        lemma_parameters_fail(b, i, m, (n - 1) as nat);
    }
}

fn read_parameters(b: &[u8], start: usize, count: u16) -> (r: Option<(usize, Vec<Parameter>)>)
    requires
        start <= b@.len(),
    ensures
        r is Some <==> parameters_end(b@, start as int, count as nat) is Some,
        r matches Some((e, ps)) ==> e == parameters_end(b@, start as int, count as nat)->0
            && parameters_are(ps@, parameters_value(b@, start as int, count as nat)),
{
    let mut pos: usize = start;
    let mut parameters: Vec<Parameter> = Vec::new();
    let mut k: u16 = 0;
    while k < count
        invariant
            k <= count,
            pos <= b@.len(),
            parameters_end(b@, start as int, k as nat) == Some(pos as int),
            parameters_are(parameters@, parameters_value(b@, start as int, k as nat)),
        decreases count - k,
    {
        if pos >= b.len() {
            proof {
                lemma_parameters_fail(b@, start as int, (k + 1) as nat, count as nat);
            }
            return None;
        }
        let register = b[pos];
        match read_c_string(b, pos + 1) {
            Some((next, name)) => {
                parameters.push(Parameter { register, name });
                pos = next;
                k = k + 1;
            },
            None => {
                proof {
                    lemma_parameters_fail(b@, start as int, (k + 1) as nat, count as nat);
                }
                return None;
            },
        }
    }
    Some((pos, parameters))
}

/// The bytes of `input` from `n` on.
fn rest_from(input: &[u8], n: usize) -> (r: &[u8])
    requires
        n <= input@.len(),
    ensures
        r@ == input@.skip(n as int),
{
    vstd::slice::slice_subrange(input, n, input.len())
}

// GotoFrame: a 16-bit frame number.
pub open spec fn goto_frame_end(b: Seq<u8>) -> Option<int> {
    if b.len() >= 2 {
        Some(2)
    } else {
        None
    }
}

pub open spec fn goto_frame_is(b: Seq<u8>, x: GotoFrame) -> bool {
    x.frame == le_u16_at(b, 0)
}

pub fn parse_goto_frame_action(input: &[u8]) -> (r: Result<(&[u8], GotoFrame), ParseError>)
    ensures
        r is Ok <==> goto_frame_end(input@) is Some,
        r matches Ok((rest, x)) ==> goto_frame_is(input@, x) && rest@ == input@.skip(
            goto_frame_end(input@)->0,
        ),
{
    if input.len() < 2 {
        return Err(ParseError::Invalid);
    }
    Ok((rest_from(input, 2), GotoFrame { frame: read_le_u16(input, 0) }))
}

// GetUrl: two nul-terminated strings, the URL and the target.
pub open spec fn get_url_end(b: Seq<u8>) -> Option<int> {
    match c_string_at(b, 0) {
        Some((i, _)) => match c_string_at(b, i) {
            Some((j, _)) => Some(j),
            None => None,
        },
        None => None,
    }
}

pub open spec fn get_url_is(b: Seq<u8>, x: GetUrl) -> bool {
    let (i, url) = c_string_at(b, 0)->0;
    let (_, target) = c_string_at(b, i)->0;
    x.url@ == url && x.target@ == target
}

pub fn parse_get_url_action(input: &[u8]) -> (r: Result<(&[u8], GetUrl), ParseError>)
    ensures
        r is Ok <==> get_url_end(input@) is Some,
        r matches Ok((rest, x)) ==> get_url_is(input@, x) && rest@ == input@.skip(
            get_url_end(input@)->0,
        ),
{
    let (i, url) = match read_c_string(input, 0) {
        Some(v) => v,
        None => return Err(ParseError::Invalid),
    };
    let (j, target) = match read_c_string(input, i) {
        Some(v) => v,
        None => return Err(ParseError::Invalid),
    };
    Ok((rest_from(input, j), GetUrl { url, target }))
}

// StoreRegister: a register number.
pub open spec fn store_register_end(b: Seq<u8>) -> Option<int> {
    if b.len() >= 1 {
        Some(1)
    } else {
        None
    }
}

pub open spec fn store_register_is(b: Seq<u8>, x: StoreRegister) -> bool {
    x.register == b[0]
}

pub fn parse_store_register_action(input: &[u8]) -> (r: Result<(&[u8], StoreRegister), ParseError>)
    ensures
        r is Ok <==> store_register_end(input@) is Some,
        r matches Ok((rest, x)) ==> store_register_is(input@, x) && rest@ == input@.skip(
            store_register_end(input@)->0,
        ),
{
    if input.len() < 1 {
        return Err(ParseError::Invalid);
    }
    Ok((rest_from(input, 1), StoreRegister { register: input[0] }))
}

// StrictMode: a byte, strict when it is not zero.
pub open spec fn strict_mode_end(b: Seq<u8>) -> Option<int> {
    if b.len() >= 1 {
        Some(1)
    } else {
        None
    }
}

pub open spec fn strict_mode_is(b: Seq<u8>, x: StrictMode) -> bool {
    x.is_strict == (b[0] != 0)
}

pub fn parse_strict_mode_action(input: &[u8]) -> (r: Result<(&[u8], StrictMode), ParseError>)
    ensures
        r is Ok <==> strict_mode_end(input@) is Some,
        r matches Ok((rest, x)) ==> strict_mode_is(input@, x) && rest@ == input@.skip(
            strict_mode_end(input@)->0,
        ),
{
    if input.len() < 1 {
        return Err(ParseError::Invalid);
    }
    Ok((rest_from(input, 1), StrictMode { is_strict: input[0] != 0 }))
}

// ConstantPool: a 16-bit count, then that many nul-terminated strings.
pub open spec fn constant_pool_end(b: Seq<u8>) -> Option<int> {
    if b.len() >= 2 {
        c_strings_end(b, 2, le_u16_at(b, 0) as nat)
    } else {
        None
    }
}

pub open spec fn constant_pool_is(b: Seq<u8>, x: ConstantPool) -> bool {
    strings_are(x.pool@, c_strings_value(b, 2, le_u16_at(b, 0) as nat))
}

pub fn parse_constant_pool_action(input: &[u8]) -> (r: Result<(&[u8], ConstantPool), ParseError>)
    ensures
        r is Ok <==> constant_pool_end(input@) is Some,
        r matches Ok((rest, x)) ==> constant_pool_is(input@, x) && rest@ == input@.skip(
            constant_pool_end(input@)->0,
        ),
{
    if input.len() < 2 {
        return Err(ParseError::Invalid);
    }
    let count = read_le_u16(input, 0);
    match read_c_strings(input, 2, count) {
        Some((end, pool)) => Ok((rest_from(input, end), ConstantPool { pool })),
        None => Err(ParseError::Invalid),
    }
}

// WaitForFrame: a 16-bit frame number, then the number of actions to skip.
pub open spec fn wait_for_frame_end(b: Seq<u8>) -> Option<int> {
    if b.len() >= 3 {
        Some(3)
    } else {
        None
    }
}

pub open spec fn wait_for_frame_is(b: Seq<u8>, x: WaitForFrame) -> bool {
    x.frame == le_u16_at(b, 0) && x.skip == b[2]
}

pub fn parse_wait_for_frame_action(input: &[u8]) -> (r: Result<(&[u8], WaitForFrame), ParseError>)
    ensures
        r is Ok <==> wait_for_frame_end(input@) is Some,
        r matches Ok((rest, x)) ==> wait_for_frame_is(input@, x) && rest@ == input@.skip(
            wait_for_frame_end(input@)->0,
        ),
{
    if input.len() < 3 {
        return Err(ParseError::Invalid);
    }
    Ok((rest_from(input, 3), WaitForFrame { frame: read_le_u16(input, 0), skip: input[2] }))
}

// SetTarget and GotoLabel: one nul-terminated string.
pub open spec fn single_string_end(b: Seq<u8>) -> Option<int> {
    match c_string_at(b, 0) {
        Some((i, _)) => Some(i),
        None => None,
    }
}

pub open spec fn single_string_is(b: Seq<u8>, s: String) -> bool {
    let (_, value) = c_string_at(b, 0)->0;
    s@ == value
}

pub fn parse_set_target_action(input: &[u8]) -> (r: Result<(&[u8], SetTarget), ParseError>)
    ensures
        r is Ok <==> single_string_end(input@) is Some,
        r matches Ok((rest, x)) ==> single_string_is(input@, x.target_name) && rest@
            == input@.skip(single_string_end(input@)->0),
{
    match read_c_string(input, 0) {
        Some((i, target_name)) => Ok((rest_from(input, i), SetTarget { target_name })),
        None => Err(ParseError::Invalid),
    }
}

pub fn parse_goto_label_action(input: &[u8]) -> (r: Result<(&[u8], GotoLabel), ParseError>)
    ensures
        r is Ok <==> single_string_end(input@) is Some,
        r matches Ok((rest, x)) ==> single_string_is(input@, x.label) && rest@ == input@.skip(
            single_string_end(input@)->0,
        ),
{
    match read_c_string(input, 0) {
        Some((i, label)) => Ok((rest_from(input, i), GotoLabel { label })),
        None => Err(ParseError::Invalid),
    }
}

// WaitForFrame2: the number of actions to skip.
pub open spec fn wait_for_frame2_end(b: Seq<u8>) -> Option<int> {
    if b.len() >= 1 {
        Some(1)
    } else {
        None
    }
}

pub open spec fn wait_for_frame2_is(b: Seq<u8>, x: WaitForFrame2) -> bool {
    x.skip == b[0]
}

pub fn parse_wait_for_frame2_action(input: &[u8]) -> (r: Result<(&[u8], WaitForFrame2), ParseError>)
    ensures
        r is Ok <==> wait_for_frame2_end(input@) is Some,
        r matches Ok((rest, x)) ==> wait_for_frame2_is(input@, x) && rest@ == input@.skip(
            wait_for_frame2_end(input@)->0,
        ),
{
    if input.len() < 1 {
        return Err(ParseError::Invalid);
    }
    Ok((rest_from(input, 1), WaitForFrame2 { skip: input[0] }))
}

// With: the 16-bit size of its body.
pub open spec fn with_end(b: Seq<u8>) -> Option<int> {
    if b.len() >= 2 {
        Some(2)
    } else {
        None
    }
}

pub open spec fn with_is(b: Seq<u8>, x: With) -> bool {
    x.size == le_u16_at(b, 0)
}

pub fn parse_with_action(input: &[u8]) -> (r: Result<(&[u8], With), ParseError>)
    ensures
        r is Ok <==> with_end(input@) is Some,
        r matches Ok((rest, x)) ==> with_is(input@, x) && rest@ == input@.skip(
            with_end(input@)->0,
        ),
{
    if input.len() < 2 {
        return Err(ParseError::Invalid);
    }
    Ok((rest_from(input, 2), With { size: read_le_u16(input, 0) }))
}

// Jump and If: a signed 16-bit offset.
pub open spec fn branch_end(b: Seq<u8>) -> Option<int> {
    if b.len() >= 2 {
        Some(2)
    } else {
        None
    }
}

pub fn parse_jump_action(input: &[u8]) -> (r: Result<(&[u8], Jump), ParseError>)
    ensures
        r is Ok <==> branch_end(input@) is Some,
        r matches Ok((rest, x)) ==> x.offset == le_i16_at(input@, 0) && rest@ == input@.skip(
            branch_end(input@)->0,
        ),
{
    if input.len() < 2 {
        return Err(ParseError::Invalid);
    }
    Ok((rest_from(input, 2), Jump { offset: read_le_i16(input, 0) }))
}

pub fn parse_if_action(input: &[u8]) -> (r: Result<(&[u8], If), ParseError>)
    ensures
        r is Ok <==> branch_end(input@) is Some,
        r matches Ok((rest, x)) ==> x.offset == le_i16_at(input@, 0) && rest@ == input@.skip(
            branch_end(input@)->0,
        ),
{
    if input.len() < 2 {
        return Err(ParseError::Invalid);
    }
    Ok((rest_from(input, 2), If { offset: read_le_i16(input, 0) }))
}

// GetUrl2: one flag byte; bit 0 loads variables, bit 1 loads a target, bits 6 and 7 give
// the method (0, 1 or 2).
pub open spec fn get_url2_end(b: Seq<u8>) -> Option<int> {
    if b.len() >= 1 && (b[0] >> 6u8) < 3 {
        Some(1)
    } else {
        None
    }
}

pub open spec fn get_url2_is(b: Seq<u8>, x: GetUrl2) -> bool {
    let flags = b[0];
    &&& x.load_variables == (flags & 0x01 != 0)
    &&& x.load_target == (flags & 0x02 != 0)
    &&& x.method == (if flags >> 6u8 == 0 {
        GetUrl2Method::NoMethod
    } else if flags >> 6u8 == 1 {
        GetUrl2Method::Get
    } else {
        GetUrl2Method::Post
    })
}

pub fn parse_get_url2_action(input: &[u8]) -> (r: Result<(&[u8], GetUrl2), ParseError>)
    ensures
        r is Ok <==> get_url2_end(input@) is Some,
        r matches Ok((rest, x)) ==> get_url2_is(input@, x) && rest@ == input@.skip(
            get_url2_end(input@)->0,
        ),
{
    if input.len() < 1 {
        return Err(ParseError::Invalid);
    }
    let flags = input[0];
    let method = match flags >> 6u8 {
        0 => GetUrl2Method::NoMethod,
        1 => GetUrl2Method::Get,
        2 => GetUrl2Method::Post,
        _ => return Err(ParseError::Invalid),
    };
    Ok((
        rest_from(input, 1),
        GetUrl2 { method, load_target: flags & 0x02 != 0, load_variables: flags & 0x01 != 0 },
    ))
}

// GotoFrame2: one flag byte; bit 0 plays, bit 1 says that a 16-bit scene bias follows.
pub open spec fn goto_frame2_end(b: Seq<u8>) -> Option<int> {
    if b.len() >= 1 && b[0] & 0x02 == 0 {
        Some(1)
    } else if b.len() >= 3 {
        Some(3)
    } else {
        None
    }
}

pub open spec fn goto_frame2_is(b: Seq<u8>, x: GotoFrame2) -> bool {
    &&& x.play == (b[0] & 0x01 != 0)
    &&& x.scene_bias == (if b[0] & 0x02 != 0 {
        le_u16_at(b, 1)
    } else {
        0
    })
}

pub fn parse_goto_frame2_action(input: &[u8]) -> (r: Result<(&[u8], GotoFrame2), ParseError>)
    ensures
        r is Ok <==> goto_frame2_end(input@) is Some,
        r matches Ok((rest, x)) ==> goto_frame2_is(input@, x) && rest@ == input@.skip(
            goto_frame2_end(input@)->0,
        ),
{
    if input.len() < 1 {
        return Err(ParseError::Invalid);
    }
    let flags = input[0];
    let play = flags & 0x01 != 0;
    if flags & 0x02 == 0 {
        Ok((rest_from(input, 1), GotoFrame2 { play, scene_bias: 0 }))
    } else if input.len() < 3 {
        Err(ParseError::Invalid)
    } else {
        Ok((rest_from(input, 3), GotoFrame2 { play, scene_bias: read_le_u16(input, 1) }))
    }
}

// DefineFunction: a nul-terminated name, a 16-bit parameter count, that many
// nul-terminated parameter names, then the 16-bit size of the body.
pub open spec fn define_function_end(b: Seq<u8>) -> Option<int> {
    match c_string_at(b, 0) {
        Some((i, _)) => if i + 2 <= b.len() {
            match c_strings_end(b, i + 2, le_u16_at(b, i) as nat) {
                Some(j) => if j + 2 <= b.len() {
                    Some(j + 2)
                } else {
                    None
                },
                None => None,
            }
        } else {
            None
        },
        None => None,
    }
}

pub open spec fn define_function_is(b: Seq<u8>, x: DefineFunction) -> bool {
    let (i, name) = c_string_at(b, 0)->0;
    let count = le_u16_at(b, i) as nat;
    &&& x.name@ == name
    &&& strings_are(x.parameters@, c_strings_value(b, i + 2, count))
    &&& x.body_size == le_u16_at(b, c_strings_end(b, i + 2, count)->0)
}

pub fn parse_define_function_action(input: &[u8]) -> (r: Result<(&[u8], DefineFunction), ParseError>)
    ensures
        r is Ok <==> define_function_end(input@) is Some,
        r matches Ok((rest, x)) ==> define_function_is(input@, x) && rest@ == input@.skip(
            define_function_end(input@)->0,
        ),
{
    let len = input.len();
    let (i, name) = match read_c_string(input, 0) {
        Some(v) => v,
        None => return Err(ParseError::Invalid),
    };
    if len - i < 2 {
        return Err(ParseError::Invalid);
    }
    let count = read_le_u16(input, i);
    let (j, parameters) = match read_c_strings(input, i + 2, count) {
        Some(v) => v,
        None => return Err(ParseError::Invalid),
    };
    if len - j < 2 {
        return Err(ParseError::Invalid);
    }
    let body_size = read_le_u16(input, j);
    Ok((rest_from(input, j + 2), DefineFunction { name, parameters, body_size }))
}

// DefineFunction2: a nul-terminated name, a 16-bit parameter count, a register count, 16
// bits of flags, that many parameters, then the 16-bit size of the body.
pub open spec fn define_function2_end(b: Seq<u8>) -> Option<int> {
    match c_string_at(b, 0) {
        Some((i, _)) => if i + 5 <= b.len() {
            match parameters_end(b, i + 5, le_u16_at(b, i) as nat) {
                Some(j) => if j + 2 <= b.len() {
                    Some(j + 2)
                } else {
                    None
                },
                None => None,
            }
        } else {
            None
        },
        None => None,
    }
}

pub open spec fn define_function2_is(b: Seq<u8>, x: DefineFunction2) -> bool {
    let (i, name) = c_string_at(b, 0)->0;
    let count = le_u16_at(b, i) as nat;
    let flags = le_u16_at(b, i + 3);
    &&& x.name@ == name
    &&& x.register_count == b[i + 2]
    &&& x.preload_this == (flags & 0x0001 != 0)
    &&& x.suppress_this == (flags & 0x0002 != 0)
    &&& x.preload_arguments == (flags & 0x0004 != 0)
    &&& x.suppress_arguments == (flags & 0x0008 != 0)
    &&& x.preload_super == (flags & 0x0010 != 0)
    &&& x.suppress_super == (flags & 0x0020 != 0)
    &&& x.preload_root == (flags & 0x0040 != 0)
    &&& x.preload_parent == (flags & 0x0080 != 0)
    &&& x.preload_global == (flags & 0x0100 != 0)
    &&& parameters_are(x.parameters@, parameters_value(b, i + 5, count))
    &&& x.body_size == le_u16_at(b, parameters_end(b, i + 5, count)->0)
}

pub fn parse_define_function2_action(input: &[u8]) -> (r: Result<(&[u8], DefineFunction2), ParseError>)
    ensures
        r is Ok <==> define_function2_end(input@) is Some,
        r matches Ok((rest, x)) ==> define_function2_is(input@, x) && rest@ == input@.skip(
            define_function2_end(input@)->0,
        ),
{
    let len = input.len();
    let (i, name) = match read_c_string(input, 0) {
        Some(v) => v,
        None => return Err(ParseError::Invalid),
    };
    if len - i < 5 {
        return Err(ParseError::Invalid);
    }
    let count = read_le_u16(input, i);
    let register_count = input[i + 2];
    let flags = read_le_u16(input, i + 3);
    let (j, parameters) = match read_parameters(input, i + 5, count) {
        Some(v) => v,
        None => return Err(ParseError::Invalid),
    };
    if len - j < 2 {
        return Err(ParseError::Invalid);
    }
    let body_size = read_le_u16(input, j);
    Ok((
        rest_from(input, j + 2),
        DefineFunction2 {
            name,
            register_count,
            preload_this: flags & 0x0001 != 0,
            suppress_this: flags & 0x0002 != 0,
            preload_arguments: flags & 0x0004 != 0,
            suppress_arguments: flags & 0x0008 != 0,
            preload_super: flags & 0x0010 != 0,
            suppress_super: flags & 0x0020 != 0,
            preload_root: flags & 0x0040 != 0,
            preload_parent: flags & 0x0080 != 0,
            preload_global: flags & 0x0100 != 0,
            parameters,
            body_size,
        },
    ))
}

// Try: one flag byte (bit 0: a catch block, bit 1: a finally block, bit 2: the caught
// value goes to a register), the 16-bit sizes of the try, catch and finally blocks, then
// the catch target: a register number, or a nul-terminated variable name.
pub open spec fn try_end(b: Seq<u8>) -> Option<int> {
    if b.len() < 7 {
        None
    } else if b[0] & 0x04 != 0 {
        if b.len() >= 8 {
            Some(8)
        } else {
            None
        }
    } else {
        match c_string_at(b, 7) {
            Some((e, _)) => Some(e),
            None => None,
        }
    }
}

pub open spec fn catch_target_is(b: Seq<u8>, t: CatchTarget) -> bool {
    if b[0] & 0x04 != 0 {
        t == CatchTarget::Register(b[7])
    } else {
        let (_, name) = c_string_at(b, 7)->0;
        t matches CatchTarget::Variable(s) && s@ == name
    }
}

pub open spec fn try_is(b: Seq<u8>, x: Try) -> bool {
    let flags = b[0];
    &&& x.try_size == le_u16_at(b, 1)
    &&& (x.catch is Some <==> flags & 0x01 != 0)
    &&& (x.catch matches Some(c) ==> c.size == le_u16_at(b, 3) && catch_target_is(b, c.target))
    &&& x.finally == (if flags & 0x02 != 0 {
        Some(le_u16_at(b, 5))
    } else {
        None
    })
}

pub fn parse_try_action(input: &[u8]) -> (r: Result<(&[u8], Try), ParseError>)
    ensures
        r is Ok <==> try_end(input@) is Some,
        r matches Ok((rest, x)) ==> try_is(input@, x) && rest@ == input@.skip(
            try_end(input@)->0,
        ),
{
    let len = input.len();
    if len < 7 {
        return Err(ParseError::Invalid);
    }
    let flags = input[0];
    let try_size = read_le_u16(input, 1);
    let catch_size = read_le_u16(input, 3);
    let finally_size = read_le_u16(input, 5);
    let (end, target) = if flags & 0x04 != 0 {
        if len < 8 {
            return Err(ParseError::Invalid);
        }
        (8, CatchTarget::Register(input[7]))
    } else {
        match read_c_string(input, 7) {
            Some((e, name)) => (e, CatchTarget::Variable(name)),
            None => return Err(ParseError::Invalid),
        }
    };
    let catch = if flags & 0x01 != 0 {
        Some(CatchBlock { target, size: catch_size })
    } else {
        None
    };
    let finally = if flags & 0x02 != 0 {
        Some(finally_size)
    } else {
        None
    };
    Ok((rest_from(input, end), Try { try_size, catch, finally }))
}

// Push: values one after the other until the body is exhausted, at least one. Each
// value is a type byte and its payload.
/// End of the push value at `i`.
pub open spec fn push_value_end(b: Seq<u8>, i: int) -> Option<int> {
    if 0 <= i < b.len() {
        let t = b[i];
        let p = i + 1;
        if t == 0 {
            match c_string_at(b, p) {
                Some((e, _)) => Some(e),
                None => None,
            }
        } else if t == 2 || t == 3 {
            Some(p)
        } else {
            let n: int = if t == 4 || t == 5 || t == 8 {
                1
            } else if t == 9 {
                2
            } else if t == 1 || t == 7 {
                4
            } else if t == 6 {
                8
            } else {
                0
            };
            if n > 0 && p + n <= b.len() {
                Some(p + n)
            } else {
                None
            }
        }
    } else {
        None
    }
}

/// `v` is the push value at `i`.
pub open spec fn push_value_is(b: Seq<u8>, i: int, v: PushValue) -> bool {
    let t = b[i];
    let p = i + 1;
    if t == 0 {
        let (_, s) = c_string_at(b, p)->0;
        v matches PushValue::String(x) && x@ == s
    } else if t == 1 {
        v == PushValue::Float32(le_u32_at(b, p))
    } else if t == 2 {
        v == PushValue::Null
    } else if t == 3 {
        v == PushValue::Undefined
    } else if t == 4 {
        v == PushValue::Register(b[p])
    } else if t == 5 {
        v == PushValue::Boolean(b[p] != 0)
    } else if t == 6 {
        v == PushValue::Float64(le32_f64_bits_at(b, p))
    } else if t == 7 {
        v == PushValue::Sint32(le_i32_at(b, p))
    } else if t == 8 {
        v == PushValue::Constant(b[p] as u16)
    } else {
        v == PushValue::Constant(le_u16_at(b, p))
    }
}

/// The values from `i` to the end of `b` can all be decoded.
pub open spec fn push_values_ok(b: Seq<u8>, i: int) -> bool
    decreases b.len() - i,
{
    if i >= b.len() {
        true
    } else {
        match push_value_end(b, i) {
            Some(e) => if i < e <= b.len() {
                push_values_ok(b, e)
            } else {
                false
            },
            None => false,
        }
    }
}

/// `vs` are the values from `i` to the end of `b`.
pub open spec fn push_values_are(b: Seq<u8>, i: int, vs: Seq<PushValue>) -> bool
    decreases b.len() - i,
{
    if i >= b.len() {
        vs.len() == 0
    } else {
        match push_value_end(b, i) {
            Some(e) => if i < e <= b.len() {
                vs.len() > 0 && push_value_is(b, i, vs[0]) && push_values_are(b, e, vs.drop_first())
            } else {
                false
            },
            None => false,
        }
    }
}

pub open spec fn push_end(b: Seq<u8>) -> Option<int> {
    if b.len() > 0 && push_values_ok(b, 0) {
        Some(b.len() as int)
    } else {
        None
    }
}

pub open spec fn push_is(b: Seq<u8>, x: Push) -> bool {
    push_values_are(b, 0, x.values@)
}

fn parse_push_value(input: &[u8], pos: usize) -> (r: Option<(usize, PushValue)>)
    requires
        pos < input@.len(),
    ensures
        r is Some <==> push_value_end(input@, pos as int) is Some,
        r matches Some((e, v)) ==> e == push_value_end(input@, pos as int)->0 && pos < e
            <= input@.len() && push_value_is(input@, pos as int, v),
{
    let len = input.len();
    let t = input[pos];
    let p = pos + 1;
    let avail = len - p;
    match t {
        0 => match read_c_string(input, p) {
            Some((e, s)) => Some((e, PushValue::String(s))),
            None => None,
        },
        1 => if avail >= 4 {
            Some((p + 4, PushValue::Float32(read_le_u32(input, p))))
        } else {
            None
        },
        2 => Some((p, PushValue::Null)),
        3 => Some((p, PushValue::Undefined)),
        4 => if avail >= 1 {
            Some((p + 1, PushValue::Register(input[p])))
        } else {
            None
        },
        5 => if avail >= 1 {
            Some((p + 1, PushValue::Boolean(input[p] != 0)))
        } else {
            None
        },
        6 => if avail >= 8 {
            Some((p + 8, PushValue::Float64(read_le32_f64_bits(input, p))))
        } else {
            None
        },
        7 => if avail >= 4 {
            Some((p + 4, PushValue::Sint32(read_le_i32(input, p))))
        } else {
            None
        },
        8 => if avail >= 1 {
            Some((p + 1, PushValue::Constant(input[p] as u16)))
        } else {
            None
        },
        9 => if avail >= 2 {
            Some((p + 2, PushValue::Constant(read_le_u16(input, p))))
        } else {
            None
        },
        _ => None,
    }
}

pub fn parse_push_action(input: &[u8]) -> (r: Result<(&[u8], Push), ParseError>)
    ensures
        r is Ok <==> push_end(input@) is Some,
        r matches Ok((rest, x)) ==> push_is(input@, x) && rest@ == input@.skip(
            push_end(input@)->0,
        ),
        r matches Ok((_, x)) ==> x.values@.len() > 0,
{
    let len = input.len();
    if len == 0 {
        return Err(ParseError::Invalid);
    }
    let mut pos: usize = 0;
    let mut values: Vec<PushValue> = Vec::new();
    while pos < len
        invariant
            pos <= len == input@.len(),
            pos == 0 || values@.len() > 0,
            push_values_ok(input@, 0) == push_values_ok(input@, pos as int),
            forall|tail: Seq<PushValue>| #[trigger]
                push_values_are(input@, pos as int, tail) ==> push_values_are(
                    input@,
                    0,
                    values@ + tail,
                ),
        decreases len - pos,
    {
        match parse_push_value(input, pos) {
            Some((next, v)) => {
                proof {
                    assert forall|tail: Seq<PushValue>| #[trigger]
                        push_values_are(input@, next as int, tail) implies push_values_are(
                        input@,
                        0,
                        values@.push(v) + tail,
                    ) by {
                        let longer = seq![v] + tail;
                        assert(longer.drop_first() =~= tail);
                        assert(push_values_are(input@, pos as int, longer));
                        assert(values@ + longer =~= values@.push(v) + tail);
                    }
                }
                values.push(v);
                pos = next;
            },
            None => return Err(ParseError::Invalid),
        }
    }
    proof {
        assert(push_values_are(input@, pos as int, seq![]));
        assert(values@ + seq![] =~= values@);
    }
    Ok((rest_from(input, len), Push { values }))
}

/// The action of the codes whose body is ignored.
pub open spec fn simple_action(code: u8) -> Option<Action> {
    match code {
        0x00 => Some(Action::End),
        0x04 => Some(Action::NextFrame),
        0x05 => Some(Action::PrevFrame),
        0x06 => Some(Action::Play),
        0x07 => Some(Action::Stop),
        0x08 => Some(Action::ToggleQuality),
        0x09 => Some(Action::StopSounds),
        0x0a => Some(Action::Add),
        0x0b => Some(Action::Subtract),
        0x0c => Some(Action::Multiply),
        0x0d => Some(Action::Divide),
        0x0e => Some(Action::Equals),
        0x0f => Some(Action::Less),
        0x10 => Some(Action::And),
        0x11 => Some(Action::Or),
        0x12 => Some(Action::Not),
        0x13 => Some(Action::StringEquals),
        0x14 => Some(Action::StringLength),
        0x15 => Some(Action::StringExtract),
        0x17 => Some(Action::Pop),
        0x18 => Some(Action::ToInteger),
        0x1c => Some(Action::GetVariable),
        0x1d => Some(Action::SetVariable),
        0x20 => Some(Action::SetTarget2),
        0x21 => Some(Action::StringAdd),
        0x22 => Some(Action::GetProperty),
        0x23 => Some(Action::SetProperty),
        0x24 => Some(Action::CloneSprite),
        0x25 => Some(Action::RemoveSprite),
        0x26 => Some(Action::Trace),
        0x27 => Some(Action::StartDrag),
        0x28 => Some(Action::EndDrag),
        0x29 => Some(Action::StringLess),
        0x2a => Some(Action::Throw),
        0x2b => Some(Action::CastOp),
        0x2c => Some(Action::ImplementsOp),
        0x2d => Some(Action::FsCommand2),
        0x30 => Some(Action::RandomNumber),
        0x31 => Some(Action::MbStringLength),
        0x32 => Some(Action::CharToAscii),
        0x33 => Some(Action::AsciiToChar),
        0x34 => Some(Action::GetTime),
        0x35 => Some(Action::MbStringExtract),
        0x36 => Some(Action::MbCharToAscii),
        0x37 => Some(Action::MbAsciiToChar),
        0x3a => Some(Action::Delete),
        0x3b => Some(Action::Delete2),
        0x3c => Some(Action::DefineLocal),
        0x3d => Some(Action::CallFunction),
        0x3e => Some(Action::Return),
        0x3f => Some(Action::Modulo),
        0x40 => Some(Action::NewObject),
        0x41 => Some(Action::DefineLocal2),
        0x42 => Some(Action::InitArray),
        0x43 => Some(Action::InitObject),
        0x44 => Some(Action::TypeOf),
        0x45 => Some(Action::TargetPath),
        0x46 => Some(Action::Enumerate),
        0x47 => Some(Action::Add2),
        0x48 => Some(Action::Less2),
        0x49 => Some(Action::Equals2),
        0x4a => Some(Action::ToNumber),
        0x4b => Some(Action::ToString),
        0x4c => Some(Action::PushDuplicate),
        0x4d => Some(Action::StackSwap),
        0x4e => Some(Action::GetMember),
        0x4f => Some(Action::SetMember),
        0x50 => Some(Action::Increment),
        0x51 => Some(Action::Decrement),
        0x52 => Some(Action::CallMethod),
        0x53 => Some(Action::NewMethod),
        0x54 => Some(Action::InstanceOf),
        0x55 => Some(Action::Enumerate2),
        0x60 => Some(Action::BitAnd),
        0x61 => Some(Action::BitOr),
        0x62 => Some(Action::BitXor),
        0x63 => Some(Action::BitLShift),
        0x64 => Some(Action::BitRShift),
        0x65 => Some(Action::BitURShift),
        0x66 => Some(Action::StrictEquals),
        0x67 => Some(Action::Greater),
        0x68 => Some(Action::StringGreater),
        0x69 => Some(Action::Extends),
        0x9e => Some(Action::Call),
        _ => None,
    }
}

fn simple_action_of(code: u8) -> (r: Option<Action>)
    ensures
        r == simple_action(code),
{
    match code {
        0x00 => Some(Action::End),
        0x04 => Some(Action::NextFrame),
        0x05 => Some(Action::PrevFrame),
        0x06 => Some(Action::Play),
        0x07 => Some(Action::Stop),
        0x08 => Some(Action::ToggleQuality),
        0x09 => Some(Action::StopSounds),
        0x0a => Some(Action::Add),
        0x0b => Some(Action::Subtract),
        0x0c => Some(Action::Multiply),
        0x0d => Some(Action::Divide),
        0x0e => Some(Action::Equals),
        0x0f => Some(Action::Less),
        0x10 => Some(Action::And),
        0x11 => Some(Action::Or),
        0x12 => Some(Action::Not),
        0x13 => Some(Action::StringEquals),
        0x14 => Some(Action::StringLength),
        0x15 => Some(Action::StringExtract),
        0x17 => Some(Action::Pop),
        0x18 => Some(Action::ToInteger),
        0x1c => Some(Action::GetVariable),
        0x1d => Some(Action::SetVariable),
        0x20 => Some(Action::SetTarget2),
        0x21 => Some(Action::StringAdd),
        0x22 => Some(Action::GetProperty),
        0x23 => Some(Action::SetProperty),
        0x24 => Some(Action::CloneSprite),
        0x25 => Some(Action::RemoveSprite),
        0x26 => Some(Action::Trace),
        0x27 => Some(Action::StartDrag),
        0x28 => Some(Action::EndDrag),
        0x29 => Some(Action::StringLess),
        0x2a => Some(Action::Throw),
        0x2b => Some(Action::CastOp),
        0x2c => Some(Action::ImplementsOp),
        0x2d => Some(Action::FsCommand2),
        0x30 => Some(Action::RandomNumber),
        0x31 => Some(Action::MbStringLength),
        0x32 => Some(Action::CharToAscii),
        0x33 => Some(Action::AsciiToChar),
        0x34 => Some(Action::GetTime),
        0x35 => Some(Action::MbStringExtract),
        0x36 => Some(Action::MbCharToAscii),
        0x37 => Some(Action::MbAsciiToChar),
        0x3a => Some(Action::Delete),
        0x3b => Some(Action::Delete2),
        0x3c => Some(Action::DefineLocal),
        0x3d => Some(Action::CallFunction),
        0x3e => Some(Action::Return),
        0x3f => Some(Action::Modulo),
        0x40 => Some(Action::NewObject),
        0x41 => Some(Action::DefineLocal2),
        0x42 => Some(Action::InitArray),
        0x43 => Some(Action::InitObject),
        0x44 => Some(Action::TypeOf),
        0x45 => Some(Action::TargetPath),
        0x46 => Some(Action::Enumerate),
        0x47 => Some(Action::Add2),
        0x48 => Some(Action::Less2),
        0x49 => Some(Action::Equals2),
        0x4a => Some(Action::ToNumber),
        0x4b => Some(Action::ToString),
        0x4c => Some(Action::PushDuplicate),
        0x4d => Some(Action::StackSwap),
        0x4e => Some(Action::GetMember),
        0x4f => Some(Action::SetMember),
        0x50 => Some(Action::Increment),
        0x51 => Some(Action::Decrement),
        0x52 => Some(Action::CallMethod),
        0x53 => Some(Action::NewMethod),
        0x54 => Some(Action::InstanceOf),
        0x55 => Some(Action::Enumerate2),
        0x60 => Some(Action::BitAnd),
        0x61 => Some(Action::BitOr),
        0x62 => Some(Action::BitXor),
        0x63 => Some(Action::BitLShift),
        0x64 => Some(Action::BitRShift),
        0x65 => Some(Action::BitURShift),
        0x66 => Some(Action::StrictEquals),
        0x67 => Some(Action::Greater),
        0x68 => Some(Action::StringGreater),
        0x69 => Some(Action::Extends),
        0x9e => Some(Action::Call),
        _ => None,
    }
}

/// Codes whose body is decoded by a layout of its own.
pub open spec fn has_body_layout(code: u8) -> bool {
    code == 0x81 || code == 0x83 || code == 0x87 || code == 0x88 || code == 0x89 || code == 0x8a || code == 0x8b || code == 0x8c || code == 0x8d || code == 0x8e || code == 0x8f || code == 0x94 || code == 0x96 || code == 0x99 || code == 0x9a || code == 0x9b || code == 0x9d || code == 0x9f
}

/// Codes that the decoder knows; any other becomes a [`Raw`] action.
pub open spec fn is_known_code(code: u8) -> bool {
    simple_action(code) is Some || has_body_layout(code)
}

/// The action that stands for a body that could not be decoded.
pub open spec fn error_action() -> Action {
    Action::Error(Error { error: None })
}

fn error_action_value() -> (r: Action)
    ensures
        r == error_action(),
{
    Action::Error(Error { error: None })
}

/// `a` is the action of code `code` whose body is `b`. A body longer than its layout
/// keeps its trailing bytes unread; one that does not hold its layout gives
/// [`error_action`].
pub open spec fn body_is(code: u8, b: Seq<u8>, a: Action) -> bool {
    if simple_action(code) is Some {
        a == simple_action(code)->0
    } else if code == 0x81 {
        if goto_frame_end(b) is Some {
            a matches Action::GotoFrame(x) && goto_frame_is(b, x)
        } else {
            a == error_action()
        }
    } else if code == 0x83 {
        if get_url_end(b) is Some {
            a matches Action::GetUrl(x) && get_url_is(b, x)
        } else {
            a == error_action()
        }
    } else if code == 0x87 {
        if store_register_end(b) is Some {
            a matches Action::StoreRegister(x) && store_register_is(b, x)
        } else {
            a == error_action()
        }
    } else if code == 0x88 {
        if constant_pool_end(b) is Some {
            a matches Action::ConstantPool(x) && constant_pool_is(b, x)
        } else {
            a == error_action()
        }
    } else if code == 0x89 {
        if strict_mode_end(b) is Some {
            a matches Action::StrictMode(x) && strict_mode_is(b, x)
        } else {
            a == error_action()
        }
    } else if code == 0x8a {
        if wait_for_frame_end(b) is Some {
            a matches Action::WaitForFrame(x) && wait_for_frame_is(b, x)
        } else {
            a == error_action()
        }
    } else if code == 0x8b {
        if single_string_end(b) is Some {
            a matches Action::SetTarget(x) && single_string_is(b, x.target_name)
        } else {
            a == error_action()
        }
    } else if code == 0x8c {
        if single_string_end(b) is Some {
            a matches Action::GotoLabel(x) && single_string_is(b, x.label)
        } else {
            a == error_action()
        }
    } else if code == 0x8d {
        if wait_for_frame2_end(b) is Some {
            a matches Action::WaitForFrame2(x) && wait_for_frame2_is(b, x)
        } else {
            a == error_action()
        }
    } else if code == 0x8e {
        if define_function2_end(b) is Some {
            a matches Action::DefineFunction2(x) && define_function2_is(b, x)
        } else {
            a == error_action()
        }
    } else if code == 0x8f {
        if try_end(b) is Some {
            a matches Action::Try(x) && try_is(b, x)
        } else {
            a == error_action()
        }
    } else if code == 0x94 {
        if with_end(b) is Some {
            a matches Action::With(x) && with_is(b, x)
        } else {
            a == error_action()
        }
    } else if code == 0x96 {
        if push_end(b) is Some {
            a matches Action::Push(x) && push_is(b, x)
        } else {
            a == error_action()
        }
    } else if code == 0x99 {
        if branch_end(b) is Some {
            a matches Action::Jump(x) && x.offset == le_i16_at(b, 0)
        } else {
            a == error_action()
        }
    } else if code == 0x9a {
        if get_url2_end(b) is Some {
            a matches Action::GetUrl2(x) && get_url2_is(b, x)
        } else {
            a == error_action()
        }
    } else if code == 0x9b {
        if define_function_end(b) is Some {
            a matches Action::DefineFunction(x) && define_function_is(b, x)
        } else {
            a == error_action()
        }
    } else if code == 0x9d {
        if branch_end(b) is Some {
            a matches Action::If(x) && x.offset == le_i16_at(b, 0)
        } else {
            a == error_action()
        }
    } else if code == 0x9f {
        if goto_frame2_end(b) is Some {
            a matches Action::GotoFrame2(x) && goto_frame2_is(b, x)
        } else {
            a == error_action()
        }
    } else {
        a matches Action::Raw(x) && x.code == code && x.data@ == b
    }
}

fn parse_action_body(input: &[u8], code: u8) -> (r: Action)
    ensures
        body_is(code, input@, r),
{
    if let Some(a) = simple_action_of(code) {
        return a;
    }
    match code {
        0x81 => match parse_goto_frame_action(input) {
            Ok((_, x)) => Action::GotoFrame(x),
            Err(_) => error_action_value(),
        },
        0x83 => match parse_get_url_action(input) {
            Ok((_, x)) => Action::GetUrl(x),
            Err(_) => error_action_value(),
        },
        0x87 => match parse_store_register_action(input) {
            Ok((_, x)) => Action::StoreRegister(x),
            Err(_) => error_action_value(),
        },
        0x88 => match parse_constant_pool_action(input) {
            Ok((_, x)) => Action::ConstantPool(x),
            Err(_) => error_action_value(),
        },
        0x89 => match parse_strict_mode_action(input) {
            Ok((_, x)) => Action::StrictMode(x),
            Err(_) => error_action_value(),
        },
        0x8a => match parse_wait_for_frame_action(input) {
            Ok((_, x)) => Action::WaitForFrame(x),
            Err(_) => error_action_value(),
        },
        0x8b => match parse_set_target_action(input) {
            Ok((_, x)) => Action::SetTarget(x),
            Err(_) => error_action_value(),
        },
        0x8c => match parse_goto_label_action(input) {
            Ok((_, x)) => Action::GotoLabel(x),
            Err(_) => error_action_value(),
        },
        0x8d => match parse_wait_for_frame2_action(input) {
            Ok((_, x)) => Action::WaitForFrame2(x),
            Err(_) => error_action_value(),
        },
        0x8e => match parse_define_function2_action(input) {
            Ok((_, x)) => Action::DefineFunction2(x),
            Err(_) => error_action_value(),
        },
        0x8f => match parse_try_action(input) {
            Ok((_, x)) => Action::Try(x),
            Err(_) => error_action_value(),
        },
        0x94 => match parse_with_action(input) {
            Ok((_, x)) => Action::With(x),
            Err(_) => error_action_value(),
        },
        0x96 => match parse_push_action(input) {
            Ok((_, x)) => Action::Push(x),
            Err(_) => error_action_value(),
        },
        0x99 => match parse_jump_action(input) {
            Ok((_, x)) => Action::Jump(x),
            Err(_) => error_action_value(),
        },
        0x9a => match parse_get_url2_action(input) {
            Ok((_, x)) => Action::GetUrl2(x),
            Err(_) => error_action_value(),
        },
        0x9b => match parse_define_function_action(input) {
            Ok((_, x)) => Action::DefineFunction(x),
            Err(_) => error_action_value(),
        },
        0x9d => match parse_if_action(input) {
            Ok((_, x)) => Action::If(x),
            Err(_) => error_action_value(),
        },
        0x9f => match parse_goto_frame2_action(input) {
            Ok((_, x)) => Action::GotoFrame2(x),
            Err(_) => error_action_value(),
        },
        _ => Action::Raw(Raw { code, data: vstd::slice::slice_to_vec(input) }),
    }
}

/// Decodes the action at the start of `input`: its header, then the body whose length
/// the header gives. Returns the bytes after the body, and the action.
pub fn parse_action(input: &[u8]) -> (r: Result<(&[u8], Action), ParseError>)
    ensures
        r is Ok <==> has_header(input@) && action_size(input@) <= input@.len(),
        r matches Ok((rest, a)) ==> rest@ == input@.skip(action_size(input@)) && body_is(
            input@[0],
            body_of(input@),
            a,
        ),
        r matches Ok((rest, _)) ==> input@.len() - rest@.len() == 1 + (if input@[0] < 0x80 {
            0
        } else {
            2 + header_of(input@).length
        }),
        r matches Ok((_, a)) ==> (!is_known_code(input@[0]) ==> (a matches Action::Raw(x)
            && x.code == input@[0] && x.data@.len() == header_of(input@).length)),
        r matches Ok((_, a)) ==> (a is Push ==> a->Push_0.values@.len() > 0),
        r matches Err(e) ==> e == ParseError::Incomplete(bytes_needed(input@) as usize),
{
    let (after_header, header) = match parse_action_header(input) {
        Ok(v) => v,
        Err(e) => return Err(e),
    };
    let header_len = input.len() - after_header.len();
    if after_header.len() < header.length {
        return Err(ParseError::Incomplete(header_len + header.length));
    }
    let body = vstd::slice::slice_subrange(after_header, 0, header.length);
    let rest = rest_from(after_header, header.length);
    let action = parse_action_body(body, header.code);
    proof {
        assert(body@ =~= body_of(input@));
        assert(rest@ =~= input@.skip(action_size(input@)));
        if action is Push {
            let b = body@;
            assert(push_values_are(b, 0, action->Push_0.values@));
        }
    }
    Ok((rest, action))
}

/// A push body that holds one double, its bits stored by [`le32_f64_bytes`], decodes to
/// a push of that same double: the byte-swapped layout reads back what it wrote.
pub proof fn lemma_push_float64_round_trip(bits: u64)
    ensures
        push_end(seq![6u8] + le32_f64_bytes(bits)) == Some(9int),
        push_values_are(seq![6u8] + le32_f64_bytes(bits), 0, seq![PushValue::Float64(bits)]),
{
    let stored = le32_f64_bytes(bits);
    let b = seq![6u8] + stored;
    lemma_le32_f64_round_trip(bits);
    assert(forall|k: int| 0 <= k < 8 ==> b[1 + k] == stored[k]);
    assert(le32_f64_bits_at(b, 1) == le32_f64_bits_at(stored, 0));
    assert(push_values_ok(b, 9));
    assert(push_values_are(b, 9, seq![PushValue::Float64(bits)].drop_first()));
}

} // verus!
