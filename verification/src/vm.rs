//! The filter machine: executes compiled bytecode against a record.

use std::sync::atomic::AtomicU64;

use bytes::Bytes;
use vstd::prelude::*;

use crate::ascii::{bytes_ends_with, bytes_eq, bytes_starts_with, eq_ignore_ascii_case, eq_ignore_case, icontains, icontains_spec};
use crate::buffer::{bytes_as_slice, bytes_contents};
use crate::pattern::{regex_is_match, CompiledRegex};
use crate::search::{contains, lemma_first_match, occurs_at, SubstringFinder};
use crate::split::{extract_header_value, field, header_value, part_of, part_spans, PayloadParts};

verus! {

/// Depth of the evaluation stack.
pub const STACK_SIZE: usize = 32;

/// What the machine runs: bytecode and the tables its operands index.
pub struct Program {
    pub code: Seq<u8>,
    pub strings: Seq<Seq<u8>>,
    pub patterns: Seq<Seq<char>>,
    pub sets: Seq<Seq<u16>>,
    pub delimiter: Seq<u8>,
}

/// Little-endian `u16` operand at `i`.
pub open spec fn u16_at(code: Seq<u8>, i: int) -> int {
    code[i] + 256 * code[i + 1]
}

/// Little-endian `i16` operand at `i`.
pub open spec fn i16_at(code: Seq<u8>, i: int) -> int {
    if u16_at(code, i) >= 32768 {
        u16_at(code, i) - 65536
    } else {
        u16_at(code, i)
    }
}

/// The string tests shared by payload and field instructions:
/// 0 contains, 1 starts with, 2 ends with, 3 equals.
pub open spec fn str_test(kind: int, hay: Seq<u8>, s: Seq<u8>) -> bool {
    if kind == 0 {
        contains(hay, s)
    } else if kind == 1 {
        s.len() <= hay.len() && hay.subrange(0, s.len() as int) == s
    } else if kind == 2 {
        s.len() <= hay.len() && hay.subrange(hay.len() - s.len(), hay.len() as int) == s
    } else {
        hay == s
    }
}

/// Membership of `part` in a string set, scanning the set from `j`: `None`
/// when an index in the set is out of range before a match is found.
pub open spec fn set_member(part: Seq<u8>, set: Seq<u16>, strings: Seq<Seq<u8>>, j: int) -> Option<
    bool,
>
    decreases set.len() - j,
{
    if j < 0 || j >= set.len() {
        Some(false)
    } else if set[j] >= strings.len() {
        None
    } else if part == strings[set[j] as int] {
        Some(true)
    } else {
        set_member(part, set, strings, j + 1)
    }
}

/// Outcome of one instruction.
pub enum Step {
    /// Execution returns this value.
    Return(bool),
    /// Execution continues at `pc` with this stack, `k` random ticks used.
    Next(int, Seq<bool>, nat),
    /// Malformed bytecode: the machine answers `false`.
    Fault,
}

/// Continue at `pc` with `b` pushed, if the stack has room.
pub open spec fn push_step(pc: int, stack: Seq<bool>, b: bool, k: nat) -> Step {
    if stack.len() < STACK_SIZE {
        Step::Next(pc, stack.push(b), k)
    } else {
        Step::Fault
    }
}

/// Whether `n` bytes of instruction fit at `pc`.
pub open spec fn fits(code: Seq<u8>, pc: int, n: int) -> bool {
    0 <= pc && pc + n <= code.len()
}

/// The field an instruction operand names.
pub open spec fn field_at(p: Program, data: Seq<u8>, part: u8) -> Seq<u8> {
    field(data, p.delimiter, part as int)
}

/// Result of a payload-wide test (`0x10`..`0x13`, `0x20`) with table index
/// `idx`; `None` when the index is out of range.
pub open spec fn payload_result(p: Program, op: u8, data: Seq<u8>, idx: int) -> Option<bool> {
    if op == 0x20 {
        if 0 <= idx < p.patterns.len() {
            Some(regex_is_match(p.patterns[idx], data))
        } else {
            None
        }
    } else if 0 <= idx < p.strings.len() {
        Some(str_test(op - 0x10, data, p.strings[idx]))
    } else {
        None
    }
}

/// Result of a field test (`0x40`..`0x44`, `0x47`..`0x49`) on `part` with
/// table index `idx`; `None` when an index is out of range.
pub open spec fn part_result(p: Program, op: u8, part: Seq<u8>, idx: int) -> Option<bool> {
    if op == 0x44 {
        if 0 <= idx < p.patterns.len() {
            Some(regex_is_match(p.patterns[idx], part))
        } else {
            None
        }
    } else if op == 0x47 {
        if 0 <= idx < p.sets.len() {
            set_member(part, p.sets[idx], p.strings, 0)
        } else {
            None
        }
    } else if 0 <= idx < p.strings.len() {
        let s = p.strings[idx];
        Some(
            if op == 0x48 {
                eq_ignore_case(part, s)
            } else if op == 0x49 {
                icontains_spec(part, s)
            } else {
                str_test(op - 0x40, part, s)
            },
        )
    } else {
        None
    }
}

/// Result of a header test (`0x50`..`0x53`) on the headers in `part`;
/// `None` when an index is out of range.
pub open spec fn header_result(p: Program, op: u8, part: Seq<u8>, hdr: int, val: int) -> Option<
    bool,
> {
    if !(0 <= hdr < p.strings.len()) {
        None
    } else if op == 0x53 {
        Some(header_value(part, p.strings[hdr]) is Some)
    } else if !(0 <= val < p.strings.len()) {
        None
    } else {
        let expected = p.strings[val];
        Some(
            match header_value(part, p.strings[hdr]) {
                Some(v) => if op == 0x50 {
                    v == expected
                } else if op == 0x51 {
                    eq_ignore_case(v, expected)
                } else {
                    contains(v, expected)
                },
                None => false,
            },
        )
    }
}

/// Continue at `pc` with the test's result pushed; fault when the test
/// faults or the stack is full.
pub open spec fn push_result(pc: int, stack: Seq<bool>, r: Option<bool>, k: nat) -> Step {
    match r {
        Some(b) => push_step(pc, stack, b, k),
        None => Step::Fault,
    }
}

/// One instruction at `pc`. `tick(i)` is the counter value that the `i`-th
/// random draw observes.
pub open spec fn step(
    p: Program,
    data: Seq<u8>,
    tick: spec_fn(nat) -> u64,
    pc: int,
    stack: Seq<bool>,
    k: nat,
) -> Step {
    let code = p.code;
    if pc < 0 || pc >= code.len() {
        Step::Fault
    } else {
        let op = code[pc];
        let n = stack.len();
        if op == 0x01 || op == 0x02 {
            push_step(pc + 1, stack, op == 0x01, k)
        } else if (0x10 <= op <= 0x13) || op == 0x20 {
            if !fits(code, pc, 3) {
                Step::Fault
            } else {
                push_result(pc + 3, stack, payload_result(p, op, data, u16_at(code, pc + 1)), k)
            }
        } else if op == 0x30 || op == 0x31 {
            if n >= 2 {
                let a = stack[n - 2];
                let b = stack[n - 1];
                Step::Next(
                    pc + 1,
                    stack.take(n - 2).push(
                        if op == 0x30 {
                            a && b
                        } else {
                            a || b
                        },
                    ),
                    k,
                )
            } else {
                Step::Fault
            }
        } else if op == 0x32 {
            if n >= 1 {
                Step::Next(pc + 1, stack.take(n - 1).push(!stack[n - 1]), k)
            } else {
                Step::Fault
            }
        } else if (0x40 <= op <= 0x44) || (0x47 <= op <= 0x49) {
            if !fits(code, pc, 4) {
                Step::Fault
            } else {
                let part = field_at(p, data, code[pc + 1]);
                push_result(pc + 4, stack, part_result(p, op, part, u16_at(code, pc + 2)), k)
            }
        } else if op == 0x45 || op == 0x46 {
            if !fits(code, pc, 2) {
                Step::Fault
            } else {
                let part = field_at(p, data, code[pc + 1]);
                push_step(pc + 2, stack, (part.len() == 0) == (op == 0x45), k)
            }
        } else if 0x50 <= op <= 0x52 {
            if !fits(code, pc, 6) {
                Step::Fault
            } else {
                let part = field_at(p, data, code[pc + 1]);
                push_result(
                    pc + 6,
                    stack,
                    header_result(p, op, part, u16_at(code, pc + 2), u16_at(code, pc + 4)),
                    k,
                )
            }
        } else if op == 0x53 {
            if !fits(code, pc, 4) {
                Step::Fault
            } else {
                let part = field_at(p, data, code[pc + 1]);
                push_result(pc + 4, stack, header_result(p, op, part, u16_at(code, pc + 2), 0), k)
            }
        } else if op == 0x60 {
            if !fits(code, pc, 3) || n >= STACK_SIZE {
                Step::Fault
            } else {
                let m = u16_at(code, pc + 1);
                if m <= 1 {
                    push_step(pc + 3, stack, true, k)
                } else {
                    push_step(pc + 3, stack, tick(k) % (m as u64) == 0, k + 1)
                }
            }
        } else if op == 0x70 || op == 0x71 {
            if !fits(code, pc, 3) || n < 1 {
                Step::Fault
            } else if stack[n - 1] == (op == 0x71) {
                let off = i16_at(code, pc + 1);
                if off > 0 {
                    Step::Next(pc + off, stack, k)
                } else {
                    Step::Fault
                }
            } else {
                Step::Next(pc + 3, stack.take(n - 1), k)
            }
        } else if op == 0xFF {
            if n >= 1 {
                Step::Return(stack[n - 1])
            } else {
                Step::Fault
            }
        } else {
            Step::Fault
        }
    }
}

/// Runs from `pc` to the end: the answer, and the random ticks used.
#[verifier::opaque]
pub open spec fn run(
    p: Program,
    data: Seq<u8>,
    tick: spec_fn(nat) -> u64,
    pc: int,
    stack: Seq<bool>,
    k: nat,
) -> (bool, nat)
    decreases p.code.len() - pc,
{
    match step(p, data, tick, pc, stack, k) {
        Step::Return(b) => (b, k),
        Step::Fault => (false, k),
        Step::Next(pc2, stack2, k2) => if pc < pc2 <= p.code.len() && pc < p.code.len() {
            run(p, data, tick, pc2, stack2, k2)
        } else {
            (false, k2)
        },
    }
}

/// Result of evaluating a program against a record: the answer, and how
/// many random ticks it used.
pub open spec fn execute(p: Program, data: Seq<u8>, tick: spec_fn(nat) -> u64) -> (bool, nat) {
    run(p, data, tick, 0, Seq::empty(), 0)
}

/// The tick sequence of a counter that starts at `c` and wraps.
pub open spec fn counter_tick(c: u64, i: nat) -> u64
    decreases i,
{
    if i == 0 {
        c
    } else {
        next_count(counter_tick(c, (i - 1) as nat))
    }
}

/// The successor of a counter value, wrapping at the top.
pub open spec fn next_count(c: u64) -> u64 {
    if c == u64::MAX {
        0
    } else {
        (c + 1) as u64
    }
}

/// `f` agrees with the observed ticks.
pub open spec fn agrees(f: spec_fn(nat) -> u64, obs: Seq<u64>) -> bool {
    forall|i: int| 0 <= i < obs.len() ==> f(i as nat) == obs[i]
}

/// The observed ticks extended to a tick function.
pub open spec fn extend_ticks(obs: Seq<u64>) -> spec_fn(nat) -> u64 {
    |i: nat| if i < obs.len() {
        obs[i as int]
    } else {
        0
    }
}

/// Where random draws take their counter values from.
pub enum RandSource<'a> {
    /// A private counter with its current value.
    Counter(u64),
    /// A shared atomic counter.
    Shared(&'a AtomicU64),
}

impl<'a> RandSource<'a> {
    /// Takes the next counter value.
    fn next_tick(&mut self) -> (t: u64)
        ensures
            match *old(self) {
                RandSource::Counter(c) => t == c && *final(self) == RandSource::Counter(
                    next_count(c),
                ),
                RandSource::Shared(a) => *final(self) == *old(self),
            },
    {
        match self {
            RandSource::Counter(c) => {
                let t = *c;
                *c = if t == u64::MAX {
                    0
                } else {
                    t + 1
                };
                t
            },
            RandSource::Shared(a) => a.fetch_add(1, std::sync::atomic::Ordering::Relaxed),
        }
    }
}

/// A compiled filter ready for evaluation.
///
/// Holds the bytecode with the tables its operands index: strings (with a
/// prebuilt searcher each), regexes, string sets, and the delimiter that
/// splits records into fields.
#[derive(Debug)]
pub struct CompiledFilter {
    bytecode: Vec<u8>,
    searchers: Vec<SubstringFinder>,
    strings: Vec<Vec<u8>>,
    regexes: Vec<CompiledRegex>,
    string_sets: Vec<Vec<u16>>,
    delimiter: Vec<u8>,
    delimiter_finder: SubstringFinder,
    source: String,
    rand_counter: AtomicU64,
}

impl View for CompiledFilter {
    type V = Program;

    closed spec fn view(&self) -> Program {
        Program {
            code: self.bytecode@,
            strings: self.strings@.map_values(|s: Vec<u8>| s@),
            patterns: self.regexes@.map_values(|r: CompiledRegex| r@),
            sets: self.string_sets@.map_values(|s: Vec<u16>| s@),
            delimiter: self.delimiter@,
        }
    }
}


/// Running from `pc` takes one step, then runs on.
pub proof fn lemma_run_unfold(
    p: Program,
    data: Seq<u8>,
    f: spec_fn(nat) -> u64,
    pc: int,
    stack: Seq<bool>,
    k: nat,
    pc2: int,
    stack2: Seq<bool>,
    k2: nat,
)
    requires
        step(p, data, f, pc, stack, k) == Step::Next(pc2, stack2, k2),
        pc < pc2,
    ensures
        run(p, data, f, pc, stack, k) == run(p, data, f, pc2, stack2, k2),
{
    reveal(run);
    if pc2 > p.code.len() {
        assert(step(p, data, f, pc2, stack2, k2) == Step::Fault);
    }
}

/// Read a little-endian `u16` operand.
fn read_u16(bytecode: &Vec<u8>, offset: usize) -> (r: u16)
    requires
        offset + 1 < bytecode@.len(),
    ensures
        r as int == u16_at(bytecode@, offset as int),
{
    assert(bytecode@.len() == bytecode.len());
    let lo = bytecode[offset] as u16;
    let hi = bytecode[offset + 1] as u16;
    hi * 256 + lo
}

/// Read a little-endian `i16` operand.
fn read_i16(bytecode: &Vec<u8>, offset: usize) -> (r: i16)
    requires
        offset + 1 < bytecode@.len(),
    ensures
        r as int == i16_at(bytecode@, offset as int),
{
    let u = read_u16(bytecode, offset);
    if u >= 32768 {
        (u as i32 - 65536) as i16
    } else {
        u as i16
    }
}

/// True once every `n` draws of a counter: always for `n <= 1`, otherwise
/// when the counter value is a multiple of `n`.
pub fn rand_1_in_n(n: u16, count: u64) -> (b: bool)
    ensures
        b == (n <= 1 || count % (n as u64) == 0),
        b == sampled(n, count as int),
{
    if n <= 1 {
        return true;
    }
    count % (n as u64) == 0
}

/// Whether `rand(n)` is true at counter value `count`.
pub open spec fn sampled(n: u16, count: int) -> bool {
    n <= 1 || count % (n as int) == 0
}

/// `rand(n)` samples one draw in every `n`: of any `n` consecutive counter
/// values `c, c + 1, ..., c + n - 1`, exactly one is sampled.
pub proof fn lemma_rand_once_per_window(n: u16, c: int)
    requires
        n >= 1,
        c >= 0,
    ensures
        exists|j: int|
            #![trigger sampled(n, c + j)]
            0 <= j < n && sampled(n, c + j) && forall|i: int|
                0 <= i < n && i != j ==> !#[trigger] sampled(n, c + i),
{
    let m = n as int;
    if n == 1 {
        assert(sampled(n, c + 0));
    } else {
        let r = c % m;
        vstd::arithmetic::div_mod::lemma_mod_bound(c, m);
        vstd::arithmetic::div_mod::lemma_fundamental_div_mod(c, m);
        let j = if r == 0 { 0 } else { m - r };
        assert((c + j) % m == 0) by {
            if r == 0 {
            } else {
                assert(c + j == (c / m + 1) * m) by (nonlinear_arith)
                    requires
                        c == m * (c / m) + r,
                        j == m - r,
                ;
                vstd::arithmetic::div_mod::lemma_mod_multiples_basic(c / m + 1, m);
            }
        }
        assert forall|i: int| 0 <= i < n && i != j implies !#[trigger] sampled(n, c + i) by {
            vstd::arithmetic::div_mod::lemma_add_mod_noop(c, i, m);
            vstd::arithmetic::div_mod::lemma_small_mod(i as nat, m as nat);
            if r + i < m {
                vstd::arithmetic::div_mod::lemma_small_mod((r + i) as nat, m as nat);
            } else {
                vstd::arithmetic::div_mod::lemma_mod_sub_multiples_vanish(r + i, m);
                vstd::arithmetic::div_mod::lemma_small_mod((r + i - m) as nat, m as nat);
            }
        }
        assert(sampled(n, c + j));
    }
}

/// The string test of kind `kind` (0 contains, 1 starts with, 2 ends with,
/// 3 equals) of `s` in `hay`; `finder` searches for `s`.
fn str_test_exec(kind: u8, hay: &[u8], finder: &SubstringFinder, s: &[u8]) -> (b: bool)
    requires
        finder@ == s@,
    ensures
        b == str_test(kind as int, hay@, s@),
{
    if kind == 0 {
        let r = finder.find(hay);
        proof {
            lemma_first_match(hay@, s@);
        }
        r.is_some()
    } else if kind == 1 {
        bytes_starts_with(hay, s)
    } else if kind == 2 {
        bytes_ends_with(hay, s)
    } else {
        bytes_eq(hay, s)
    }
}

/// Every tick function that agrees with the observed ticks takes this step.
pub open spec fn advances(
    p: Program,
    data: Seq<u8>,
    obs: Seq<u64>,
    pc: int,
    stack: Seq<bool>,
    k: nat,
    pc2: int,
    stack2: Seq<bool>,
    k2: nat,
) -> bool {
    forall|f: spec_fn(nat) -> u64| #[trigger]
        agrees(f, obs) ==> step(p, data, f, pc, stack, k) == Step::Next(pc2, stack2, k2)
}

/// What remains to run from `pc` gives the whole run's result, for every
/// tick function that agrees with the observed ticks.
pub open spec fn resumes(
    p: Program,
    data: Seq<u8>,
    obs: Seq<u64>,
    pc: int,
    stack: Seq<bool>,
) -> bool {
    forall|f: spec_fn(nat) -> u64| #[trigger]
        agrees(f, obs) ==> execute(p, data, f) == run(p, data, f, pc, stack, obs.len())
}

/// After a step, the rest of the run still gives the whole run's result.
proof fn lemma_advance(
    p: Program,
    data: Seq<u8>,
    obs0: Seq<u64>,
    obs: Seq<u64>,
    pc: int,
    stack: Seq<bool>,
    pc2: int,
    stack2: Seq<bool>,
)
    requires
        resumes(p, data, obs0, pc, stack),
        obs0 == obs.take(obs0.len() as int),
        obs0.len() <= obs.len(),
        advances(p, data, obs, pc, stack, obs0.len(), pc2, stack2, obs.len()),
        pc < pc2,
    ensures
        resumes(p, data, obs, pc2, stack2),
{
    assert forall|f: spec_fn(nat) -> u64| #[trigger] agrees(f, obs) implies execute(p, data, f)
        == run(p, data, f, pc2, stack2, obs.len()) by {
        assert(agrees(f, obs0)) by {
            assert forall|i: int| 0 <= i < obs0.len() implies f(i as nat) == obs0[i] by {
                assert(obs0[i] == obs[i]);
            }
        }
        lemma_run_unfold(p, data, f, pc, stack, obs0.len(), pc2, stack2, obs.len());
    }
}

/// The run ends here with `b`, for every agreeing tick function.
proof fn lemma_finish(p: Program, data: Seq<u8>, obs: Seq<u64>, pc: int, stack: Seq<bool>, b: bool)
    requires
        resumes(p, data, obs, pc, stack),
        forall|f: spec_fn(nat) -> u64| #[trigger]
            agrees(f, obs) ==> (step(p, data, f, pc, stack, obs.len()) == Step::Return(b) || (!b
                && step(p, data, f, pc, stack, obs.len()) == Step::Fault)),
    ensures
        forall|f: spec_fn(nat) -> u64| #[trigger]
            agrees(f, obs) ==> execute(p, data, f) == (b, obs.len()),
{
    reveal(run);
}

/// The observed ticks agree with their own extension.
proof fn lemma_extend_agrees(obs: Seq<u64>)
    ensures
        agrees(extend_ticks(obs), obs),
{
}

impl CompiledFilter {
    #[verifier::type_invariant]
    closed spec fn inv(self) -> bool {
        &&& self.searchers@.len() == self.strings@.len()
        &&& forall|i: int| 0 <= i < self.strings@.len() ==> (#[trigger] self.searchers@[i])@ == self.strings@[i]@
        &&& self.delimiter_finder@ == self.delimiter@
    }

    /// The filter's source text.
    pub closed spec fn source_text(self) -> Seq<char> {
        self.source@
    }

    /// Create a compiled filter from its parts.
    ///
    /// This is typically called by the compiler, not directly.
    pub fn new(
        bytecode: Vec<u8>,
        strings: Vec<Vec<u8>>,
        regexes: Vec<CompiledRegex>,
        string_sets: Vec<Vec<u16>>,
        delimiter: Vec<u8>,
        source: String,
    ) -> (f: Self)
        ensures
            f@ == (Program {
                code: bytecode@,
                strings: strings@.map_values(|s: Vec<u8>| s@),
                patterns: regexes@.map_values(|r: CompiledRegex| r@),
                sets: string_sets@.map_values(|s: Vec<u16>| s@),
                delimiter: delimiter@,
            }),
            f.source_text() == source@,
    {
        let mut searchers: Vec<SubstringFinder> = Vec::new();
        let mut i: usize = 0;
        while i < strings.len()
            invariant
                i <= strings@.len(),
                searchers@.len() == i,
                forall|j: int| 0 <= j < i ==> (#[trigger] searchers@[j])@ == strings@[j]@,
            decreases strings@.len() - i,
        {
            searchers.push(SubstringFinder::new(strings[i].as_slice()));
            i += 1;
        }
        let delimiter_finder = SubstringFinder::new(delimiter.as_slice());
        CompiledFilter {
            bytecode,
            searchers,
            strings,
            regexes,
            string_sets,
            delimiter,
            delimiter_finder,
            source,
            rand_counter: AtomicU64::new(0),
        }
    }

    /// Result of a payload-wide test.
    fn payload_test(&self, op: u8, data: &[u8], idx: usize) -> (r: Option<bool>)
        requires
            (0x10 <= op <= 0x13) || op == 0x20,
        ensures
            r == payload_result(self@, op, data@, idx as int),
    {
        proof {
            use_type_invariant(self);
        }
        if op == 0x20 {
            if idx < self.regexes.len() {
                Some(self.regexes[idx].is_match(data))
            } else {
                None
            }
        } else if idx < self.strings.len() {
            Some(str_test_exec(op - 0x10, data, &self.searchers[idx], self.strings[idx].as_slice()))
        } else {
            None
        }
    }

    /// Membership of `part` in string set `set_idx`.
    fn set_test(&self, part: &[u8], set_idx: usize) -> (r: Option<bool>)
        requires
            set_idx < self.string_sets@.len(),
        ensures
            r == set_member(part@, self@.sets[set_idx as int], self@.strings, 0),
    {
        let set = &self.string_sets[set_idx];
        let ghost sv = self@.sets[set_idx as int];
        let mut j: usize = 0;
        while j < set.len()
            invariant
                sv == set@,
                sv == self@.sets[set_idx as int],
                j <= set@.len(),
                set_member(part@, sv, self@.strings, 0) == set_member(
                    part@,
                    sv,
                    self@.strings,
                    j as int,
                ),
            decreases set@.len() - j,
        {
            let str_idx = set[j] as usize;
            if str_idx >= self.strings.len() {
                return None;
            }
            if bytes_eq(part, self.strings[str_idx].as_slice()) {
                return Some(true);
            }
            j += 1;
        }
        Some(false)
    }

    /// Result of a field test.
    fn part_test(&self, op: u8, part: &[u8], idx: usize) -> (r: Option<bool>)
        requires
            (0x40 <= op <= 0x44) || (0x47 <= op <= 0x49),
        ensures
            r == part_result(self@, op, part@, idx as int),
    {
        proof {
            use_type_invariant(self);
        }
        if op == 0x44 {
            if idx < self.regexes.len() {
                Some(self.regexes[idx].is_match(part))
            } else {
                None
            }
        } else if op == 0x47 {
            if idx < self.string_sets.len() {
                self.set_test(part, idx)
            } else {
                None
            }
        } else if idx < self.strings.len() {
            let s = self.strings[idx].as_slice();
            if op == 0x48 {
                Some(eq_ignore_ascii_case(part, s))
            } else if op == 0x49 {
                Some(icontains(part, s))
            } else {
                Some(str_test_exec(op - 0x40, part, &self.searchers[idx], s))
            }
        } else {
            None
        }
    }

    /// Result of a header test.
    fn header_test(&self, op: u8, part: &[u8], hdr: usize, val: usize) -> (r: Option<bool>)
        requires
            0x50 <= op <= 0x53,
        ensures
            r == header_result(self@, op, part@, hdr as int, val as int),
    {
        proof {
            use_type_invariant(self);
        }
        if hdr >= self.strings.len() {
            return None;
        }
        let value = extract_header_value(part, self.strings[hdr].as_slice());
        if op == 0x53 {
            return Some(value.is_some());
        }
        if val >= self.strings.len() {
            return None;
        }
        let expected = self.strings[val].as_slice();
        match value {
            Some(v) => {
                if op == 0x50 {
                    Some(bytes_eq(v, expected))
                } else if op == 0x51 {
                    Some(eq_ignore_ascii_case(v, expected))
                } else {
                    let r = self.searchers[val].find(v);
                    proof {
                        lemma_first_match(v@, expected@);
                    }
                    Some(r.is_some())
                }
            },
            None => Some(false),
        }
    }
}


impl CompiledFilter {
    /// Runs the machine; each random draw takes the next value from `src`.
    /// Returns the answer and the counter values the draws observed.
    fn run_machine(&self, payload: Bytes, src: &mut RandSource) -> (r: (bool, Ghost<Seq<u64>>))
        ensures
            forall|f: spec_fn(nat) -> u64| #[trigger]
                agrees(f, r.1@) ==> execute(self@, bytes_contents(payload), f) == (r.0, r.1@.len()),
            match *old(src) {
                RandSource::Counter(c) => (forall|i: int|
                    0 <= i < r.1@.len() ==> r.1@[i] == counter_tick(c, i as nat)) && *final(src)
                    == RandSource::Counter(counter_tick(c, r.1@.len())),
                RandSource::Shared(_) => *final(src) == *old(src),
            },
    {
        proof {
            use_type_invariant(self);
        }
        let ghost p = self@;
        let ghost data = bytes_contents(payload);
        let ghost d = p.delimiter;
        let mut parts = PayloadParts::new_lazy(payload);
        let delim_len = self.delimiter.len();
        let mut stack = [false; STACK_SIZE];
        let mut sp: usize = 0;
        let mut pc: usize = 0;
        let len = self.bytecode.len();
        let ghost mut obs: Seq<u64> = Seq::empty();
        proof {
            assert(stack@.take(0) =~= Seq::<bool>::empty());
            assert(parts.eventual(d, d.len()) == part_spans(data, d, d.len()));
        }
        loop
            invariant
                p == self@,
                data == bytes_contents(payload),
                d == p.delimiter,
                delim_len == d.len(),
                len == p.code.len(),
                self.delimiter_finder@ == d,
                parts.wf(),
                parts.data() == data,
                parts.eventual(d, d.len()) == part_spans(data, d, d.len()),
                sp <= STACK_SIZE,
                pc <= len,
                resumes(p, data, obs, pc as int, stack@.take(sp as int)),
                match *old(src) {
                    RandSource::Counter(c) => (forall|i: int|
                        0 <= i < obs.len() ==> obs[i] == counter_tick(c, i as nat)) && *src
                        == RandSource::Counter(counter_tick(c, obs.len())),
                    RandSource::Shared(_) => *src == *old(src),
                },
            decreases len - pc,
        {
            let ghost obs0 = obs;
            let ghost pc0 = pc as int;
            let ghost st0 = stack@.take(sp as int);
            if pc >= len {
                proof {
                    lemma_finish(p, data, obs, pc0, st0, false);
                }
                return (false, Ghost(obs));
            }
            let op = self.bytecode[pc];
            if op == 0x01 || op == 0x02 {
                if sp >= STACK_SIZE {
                    proof {
                        lemma_finish(p, data, obs, pc0, st0, false);
                    }
                    return (false, Ghost(obs));
                }
                stack[sp] = op == 0x01;
                sp += 1;
                pc += 1;
                proof {
                    assert(stack@.take(sp as int) =~= st0.push(op == 0x01));
                    assert(advances(p, data, obs, pc0, st0, obs.len(), pc as int, stack@.take(sp as int), obs.len()));
                }
            } else if (0x10 <= op && op <= 0x13) || op == 0x20 {
                if len - pc < 3 {
                    proof {
                        lemma_finish(p, data, obs, pc0, st0, false);
                    }
                    return (false, Ghost(obs));
                }
                let idx = read_u16(&self.bytecode, pc + 1) as usize;
                let data_bytes = bytes_as_slice(parts.payload());
                let r = self.payload_test(op, data_bytes, idx);
                if r.is_none() || sp >= STACK_SIZE {
                    proof {
                        lemma_finish(p, data, obs, pc0, st0, false);
                    }
                    return (false, Ghost(obs));
                }
                let b = r.unwrap();
                stack[sp] = b;
                sp += 1;
                pc += 3;
                proof {
                    assert(stack@.take(sp as int) =~= st0.push(b));
                    assert(advances(p, data, obs, pc0, st0, obs.len(), pc as int, stack@.take(sp as int), obs.len()));
                }
            } else if op == 0x30 || op == 0x31 {
                if sp < 2 {
                    proof {
                        lemma_finish(p, data, obs, pc0, st0, false);
                    }
                    return (false, Ghost(obs));
                }
                let a = stack[sp - 2];
                let b = stack[sp - 1];
                stack[sp - 2] = if op == 0x30 {
                    a && b
                } else {
                    a || b
                };
                sp -= 1;
                pc += 1;
                proof {
                    assert(stack@.take(sp as int) =~= st0.take(st0.len() - 2).push(
                        if op == 0x30 {
                            a && b
                        } else {
                            a || b
                        },
                    ));
                    assert(advances(p, data, obs, pc0, st0, obs.len(), pc as int, stack@.take(sp as int), obs.len()));
                }
            } else if op == 0x32 {
                if sp < 1 {
                    proof {
                        lemma_finish(p, data, obs, pc0, st0, false);
                    }
                    return (false, Ghost(obs));
                }
                let a = stack[sp - 1];
                stack[sp - 1] = !a;
                pc += 1;
                proof {
                    assert(stack@.take(sp as int) =~= st0.take(st0.len() - 1).push(!a));
                    assert(advances(p, data, obs, pc0, st0, obs.len(), pc as int, stack@.take(sp as int), obs.len()));
                }
            } else if (0x40 <= op && op <= 0x49) || (0x50 <= op && op <= 0x53) {
                let width: usize = if op == 0x45 || op == 0x46 {
                    2
                } else if 0x50 <= op && op <= 0x52 {
                    6
                } else {
                    4
                };
                if len - pc < width {
                    proof {
                        lemma_finish(p, data, obs, pc0, st0, false);
                    }
                    return (false, Ghost(obs));
                }
                let part_idx = self.bytecode[pc + 1] as usize;
                parts.ensure(part_idx, &self.delimiter_finder, delim_len);
                let part = parts.get(part_idx);
                proof {
                    parts.lemma_part_settled(d, d.len(), part_idx as int);
                    assert(part@ == field_at(p, data, p.code[pc + 1]));
                }
                let r = if op == 0x45 || op == 0x46 {
                    Some((part.len() == 0) == (op == 0x45))
                } else if 0x50 <= op && op <= 0x53 {
                    let hdr = read_u16(&self.bytecode, pc + 2) as usize;
                    let val = if op == 0x53 {
                        0
                    } else {
                        read_u16(&self.bytecode, pc + 4) as usize
                    };
                    self.header_test(op, part, hdr, val)
                } else {
                    let idx = read_u16(&self.bytecode, pc + 2) as usize;
                    self.part_test(op, part, idx)
                };
                if r.is_none() || sp >= STACK_SIZE {
                    proof {
                        lemma_finish(p, data, obs, pc0, st0, false);
                    }
                    return (false, Ghost(obs));
                }
                let b = r.unwrap();
                stack[sp] = b;
                sp += 1;
                pc += width;
                proof {
                    assert(stack@.take(sp as int) =~= st0.push(b));
                    assert(advances(p, data, obs, pc0, st0, obs.len(), pc as int, stack@.take(sp as int), obs.len()));
                }
            } else if op == 0x60 {
                if len - pc < 3 || sp >= STACK_SIZE {
                    proof {
                        lemma_finish(p, data, obs, pc0, st0, false);
                    }
                    return (false, Ghost(obs));
                }
                let m = read_u16(&self.bytecode, pc + 1);
                let b = if m <= 1 {
                    true
                } else {
                    let t = src.next_tick();
                    proof {
                        obs = obs.push(t);
                    }
                    rand_1_in_n(m, t)
                };
                stack[sp] = b;
                sp += 1;
                pc += 3;
                proof {
                    assert(stack@.take(sp as int) =~= st0.push(b));
                    assert(obs0 =~= obs.take(obs0.len() as int));
                    assert forall|f: spec_fn(nat) -> u64| #[trigger] agrees(f, obs) implies step(
                        p,
                        data,
                        f,
                        pc0,
                        st0,
                        obs0.len(),
                    ) == Step::Next(pc as int, stack@.take(sp as int), obs.len()) by {
                        if m > 1 {
                            assert(f(obs0.len()) == obs[obs0.len() as int]);
                        }
                    }
                }
            } else if op == 0x70 || op == 0x71 {
                if len - pc < 3 || sp < 1 {
                    proof {
                        lemma_finish(p, data, obs, pc0, st0, false);
                    }
                    return (false, Ghost(obs));
                }
                let top = stack[sp - 1];
                if top == (op == 0x71) {
                    let off = read_i16(&self.bytecode, pc + 1);
                    if off <= 0 || off as usize > len - pc {
                        proof {
                            if off > 0 {
                                assert forall|f: spec_fn(nat) -> u64| #[trigger] agrees(f, obs) implies execute(p, data, f) == (false, obs.len()) by {
                                    reveal(run);
                                    assert(step(p, data, f, pc0, st0, obs.len()) == Step::Next(pc0 + off, st0, obs.len()));
                                }
                            } else {
                                lemma_finish(p, data, obs, pc0, st0, false);
                            }
                        }
                        return (false, Ghost(obs));
                    }
                    pc = pc + off as usize;
                    proof {
                        assert(pc as int == pc0 + i16_at(p.code, pc0 + 1));
                        assert(stack@.take(sp as int) == st0);
                    }
                } else {
                    sp -= 1;
                    pc += 3;
                    proof {
                        assert(stack@.take(sp as int) =~= st0.take(st0.len() - 1));
                    }
                }
                proof {
                    assert(advances(p, data, obs, pc0, st0, obs.len(), pc as int, stack@.take(sp as int), obs.len()));
                }
            } else if op == 0xFF {
                if sp < 1 {
                    proof {
                        lemma_finish(p, data, obs, pc0, st0, false);
                    }
                    return (false, Ghost(obs));
                }
                let b = stack[sp - 1];
                proof {
                    lemma_finish(p, data, obs, pc0, st0, b);
                }
                return (b, Ghost(obs));
            } else {
                proof {
                    lemma_finish(p, data, obs, pc0, st0, false);
                }
                return (false, Ghost(obs));
            }
            proof {
                assert(obs0 =~= obs.take(obs0.len() as int));
                lemma_advance(p, data, obs0, obs, pc0, st0, pc as int, stack@.take(sp as int));
            }
        }
    }
}

impl CompiledFilter {
    /// Evaluate the filter against a record: `true` if it matches.
    ///
    /// Random draws take their values from the filter's own counter, which
    /// other evaluations of this filter advance too; the answer is the
    /// program's result for the values those draws observed.
    pub fn evaluate(&self, payload: Bytes) -> (r: bool)
        ensures
            exists|f: spec_fn(nat) -> u64| r == #[trigger] execute(self@, bytes_contents(payload), f).0,
    {
        let mut src = RandSource::Shared(&self.rand_counter);
        let (r, obs) = self.run_machine(payload, &mut src);
        proof {
            lemma_extend_agrees(obs@);
            assert(r == execute(self@, bytes_contents(payload), extend_ticks(obs@)).0);
        }
        r
    }

    /// Evaluate the filter against a record, with random draws taking
    /// successive values of `counter` (wrapping at the top).
    pub fn evaluate_with_counter(&self, payload: Bytes, counter: &mut u64) -> (r: bool)
        ensures
            ({
                let res = execute(self@, bytes_contents(payload), |i: nat| counter_tick(*old(counter), i));
                r == res.0 && *final(counter) == counter_tick(*old(counter), res.1)
            }),
    {
        let ghost c0 = *counter;
        let mut src = RandSource::Counter(*counter);
        let (r, obs) = self.run_machine(payload, &mut src);
        proof {
            let f = |i: nat| counter_tick(c0, i);
            assert(agrees(f, obs@));
        }
        match src {
            RandSource::Counter(c) => {
                *counter = c;
            },
            RandSource::Shared(_) => {},
        }
        r
    }

    /// Reset the filter's random counter to zero.
    pub fn reset_rand_counter(&self) {
        self.rand_counter.store(0, std::sync::atomic::Ordering::Relaxed);
    }

    /// The filter source text this filter was compiled from.
    pub fn source(&self) -> (r: &str)
        ensures
            r@ == self.source_text(),
    {
        self.source.as_str()
    }

    /// The bytecode length.
    pub fn bytecode_len(&self) -> (r: usize)
        ensures
            r == self@.code.len(),
    {
        self.bytecode.len()
    }

    /// The number of string literals.
    pub fn string_count(&self) -> (r: usize)
        ensures
            r == self@.strings.len(),
    {
        self.strings.len()
    }

    /// The number of regex patterns.
    pub fn regex_count(&self) -> (r: usize)
        ensures
            r == self@.patterns.len(),
    {
        self.regexes.len()
    }

    /// The delimiter that splits records into fields.
    pub fn delimiter(&self) -> (r: &[u8])
        ensures
            r@ == self@.delimiter,
    {
        self.delimiter.as_slice()
    }
}

/// A run never ends with fewer draws than it started with.
proof fn lemma_run_draws_grow(
    p: Program,
    data: Seq<u8>,
    f: spec_fn(nat) -> u64,
    pc: int,
    stack: Seq<bool>,
    k: nat,
)
    ensures
        run(p, data, f, pc, stack, k).1 >= k,
    decreases p.code.len() - pc,
{
    reveal(run);
    match step(p, data, f, pc, stack, k) {
        Step::Next(pc2, stack2, k2) => {
            if pc < pc2 <= p.code.len() && pc < p.code.len() {
                lemma_run_draws_grow(p, data, f, pc2, stack2, k2);
            }
        },
        _ => {},
    }
}

/// A run from `pc` that draws nothing ends the same for every tick function.
proof fn lemma_run_without_draws(
    p: Program,
    data: Seq<u8>,
    f: spec_fn(nat) -> u64,
    g: spec_fn(nat) -> u64,
    pc: int,
    stack: Seq<bool>,
    k: nat,
)
    requires
        run(p, data, f, pc, stack, k).1 == k,
    ensures
        run(p, data, g, pc, stack, k) == run(p, data, f, pc, stack, k),
    decreases p.code.len() - pc,
{
    reveal(run);
    match step(p, data, f, pc, stack, k) {
        Step::Next(pc2, stack2, k2) => {
            if pc < pc2 <= p.code.len() && pc < p.code.len() {
                lemma_run_draws_grow(p, data, f, pc2, stack2, k2);
                assert(k2 == k);
                assert(step(p, data, g, pc, stack, k) == step(p, data, f, pc, stack, k));
                lemma_run_without_draws(p, data, f, g, pc2, stack2, k2);
            } else {
                assert(step(p, data, g, pc, stack, k) == step(p, data, f, pc, stack, k));
            }
        },
        _ => {
            assert(step(p, data, g, pc, stack, k) == step(p, data, f, pc, stack, k));
        },
    }
}

/// `And`, `Or` and `Not` replace the top of the stack: `a b And` leaves
/// `a && b`, `a b Or` leaves `a || b`, and `b Not` leaves `!b`; the rest of
/// the stack is kept and execution moves to the next byte.
pub proof fn lemma_logic_instructions(
    p: Program,
    data: Seq<u8>,
    tick: spec_fn(nat) -> u64,
    pc: int,
    rest: Seq<bool>,
    a: bool,
    b: bool,
    k: nat,
)
    requires
        0 <= pc < p.code.len(),
    ensures
        p.code[pc] == 0x30 ==> step(p, data, tick, pc, rest.push(a).push(b), k) == Step::Next(
            pc + 1,
            rest.push(a && b),
            k,
        ),
        p.code[pc] == 0x31 ==> step(p, data, tick, pc, rest.push(a).push(b), k) == Step::Next(
            pc + 1,
            rest.push(a || b),
            k,
        ),
        p.code[pc] == 0x32 ==> step(p, data, tick, pc, rest.push(b), k) == Step::Next(
            pc + 1,
            rest.push(!b),
            k,
        ),
{
    let st = rest.push(a).push(b);
    assert(st.take(st.len() - 2) =~= rest);
    assert(st[st.len() - 2] == a);
    assert(st[st.len() - 1] == b);
    assert(rest.push(b).take(rest.len() as int) =~= rest);
}

/// The opcode that pushes the literal `b`.
pub open spec fn push_op(b: bool) -> u8 {
    if b {
        0x01
    } else {
        0x02
    }
}

/// Two literals joined by `And` or `Or`, then `Return`, answer the
/// conjunction or disjunction of the literals on every record, with no draw.
pub proof fn lemma_literal_pair(p: Program, data: Seq<u8>, tick: spec_fn(nat) -> u64, a: bool, b: bool)
    ensures
        p.code == seq![push_op(a), push_op(b), 0x30u8, 0xFFu8] ==> execute(p, data, tick) == (a && b, 0nat),
        p.code == seq![push_op(a), push_op(b), 0x31u8, 0xFFu8] ==> execute(p, data, tick) == (a || b, 0nat),
{
    if p.code == seq![push_op(a), push_op(b), 0x30u8, 0xFFu8] || p.code == seq![push_op(a), push_op(b), 0x31u8, 0xFFu8] {
        let e = Seq::<bool>::empty();
        assert(step(p, data, tick, 0, e, 0) == Step::Next(1, e.push(a), 0));
        lemma_run_unfold(p, data, tick, 0, e, 0, 1, e.push(a), 0);
        assert(step(p, data, tick, 1, e.push(a), 0) == Step::Next(2, e.push(a).push(b), 0));
        lemma_run_unfold(p, data, tick, 1, e.push(a), 0, 2, e.push(a).push(b), 0);
        lemma_logic_instructions(p, data, tick, 2, e, a, b, 0);
        let c = if p.code[2] == 0x30 { a && b } else { a || b };
        lemma_run_unfold(p, data, tick, 2, e.push(a).push(b), 0, 3, e.push(c), 0);
        assert(step(p, data, tick, 3, e.push(c), 0) == Step::Return(c));
        reveal(run);
    }
}

/// What the string tests mean, byte by byte: `contains` (kind 0) holds when
/// the needle occurs at some position, `starts_with` (1) and `ends_with` (2)
/// when the haystack's first or last bytes are the needle, and `equals` (3)
/// when the two are the same bytes.
pub proof fn lemma_str_test_meaning(hay: Seq<u8>, s: Seq<u8>)
    ensures
        str_test(0, hay, s) == exists|i: int|
            0 <= i && i + s.len() <= hay.len() && #[trigger] hay.subrange(i, i + s.len()) == s,
        str_test(1, hay, s) == (s.len() <= hay.len() && forall|j: int| 0 <= j < s.len() ==> hay[j] == s[j]),
        str_test(2, hay, s) == (s.len() <= hay.len() && forall|j: int|
            0 <= j < s.len() ==> hay[hay.len() - s.len() + j] == s[j]),
        str_test(3, hay, s) == (hay.len() == s.len() && forall|j: int| 0 <= j < s.len() ==> hay[j] == s[j]),
{
    if exists|i: int| 0 <= i && i + s.len() <= hay.len() && #[trigger] hay.subrange(i, i + s.len()) == s {
        let i = choose|i: int| 0 <= i && i + s.len() <= hay.len() && #[trigger] hay.subrange(i, i + s.len()) == s;
        assert(occurs_at(hay, s, i));
    }
    if contains(hay, s) {
        let i = choose|i: int| occurs_at(hay, s, i);
        assert(hay.subrange(i, i + s.len()) == s);
    }
    if s.len() <= hay.len() && forall|j: int| 0 <= j < s.len() ==> hay[j] == s[j] {
        assert(hay.subrange(0, s.len() as int) =~= s);
    }
    if s.len() <= hay.len() && forall|j: int| 0 <= j < s.len() ==> hay[hay.len() - s.len() + j] == s[j] {
        assert(hay.subrange(hay.len() - s.len(), hay.len() as int) =~= s);
    }
    if hay.len() == s.len() && forall|j: int| 0 <= j < s.len() ==> hay[j] == s[j] {
        assert(hay =~= s);
    }
    if s.len() <= hay.len() && hay.subrange(0, s.len() as int) == s {
        assert forall|j: int| 0 <= j < s.len() implies hay[j] == s[j] by {
            assert(hay.subrange(0, s.len() as int)[j] == hay[j]);
        }
    }
    if s.len() <= hay.len() && hay.subrange(hay.len() - s.len(), hay.len() as int) == s {
        assert forall|j: int| 0 <= j < s.len() implies hay[hay.len() - s.len() + j] == s[j] by {
            assert(hay.subrange(hay.len() - s.len(), hay.len() as int)[j] == hay[hay.len() - s.len() + j]);
        }
    }
}

/// A payload-wide string test (`0x10` contains, `0x11` starts with, `0x12`
/// ends with, `0x13` equals) of string 0, followed by `Return`, answers that
/// test on the whole record, with no draw.
pub proof fn lemma_payload_test_program(p: Program, data: Seq<u8>, tick: spec_fn(nat) -> u64, op: u8)
    requires
        0x10 <= op <= 0x13,
        p.code == seq![op, 0u8, 0u8, 0xFFu8],
        p.strings.len() >= 1,
    ensures
        execute(p, data, tick) == (str_test(op - 0x10, data, p.strings[0]), 0nat),
        op == 0x10 ==> execute(p, data, tick).0 == exists|i: int|
            0 <= i && i + p.strings[0].len() <= data.len() && #[trigger] data.subrange(i, i + p.strings[0].len())
                == p.strings[0],
{
    let e = Seq::<bool>::empty();
    let b = str_test(op - 0x10, data, p.strings[0]);
    assert(u16_at(p.code, 1) == 0);
    assert(step(p, data, tick, 0, e, 0) == Step::Next(3, e.push(b), 0));
    lemma_run_unfold(p, data, tick, 0, e, 0, 3, e.push(b), 0);
    assert(step(p, data, tick, 3, e.push(b), 0) == Step::Return(b));
    reveal(run);
    lemma_str_test_meaning(data, p.strings[0]);
}

/// A field string test (`0x40` contains, `0x41` starts with, `0x42` ends
/// with, `0x43` equals) of field `part` against string 0, followed by
/// `Return`, answers that test on the field, with no draw.
pub proof fn lemma_field_test_program(
    p: Program,
    data: Seq<u8>,
    tick: spec_fn(nat) -> u64,
    op: u8,
    part: u8,
)
    requires
        0x40 <= op <= 0x43,
        p.code == seq![op, part, 0u8, 0u8, 0xFFu8],
        p.strings.len() >= 1,
    ensures
        execute(p, data, tick) == (str_test(op - 0x40, field(data, p.delimiter, part as int), p.strings[0]), 0nat),
{
    let e = Seq::<bool>::empty();
    let b = str_test(op - 0x40, field(data, p.delimiter, part as int), p.strings[0]);
    assert(u16_at(p.code, 2) == 0);
    assert(step(p, data, tick, 0, e, 0) == Step::Next(4, e.push(b), 0));
    lemma_run_unfold(p, data, tick, 0, e, 0, 4, e.push(b), 0);
    assert(step(p, data, tick, 4, e.push(b), 0) == Step::Return(b));
    reveal(run);
}

/// `IsEmpty` (`0x45`) and `NotEmpty` (`0x46`) of field `part`, followed by
/// `Return`, answer whether that field of the record is empty or not.
pub proof fn lemma_empty_test_program(p: Program, data: Seq<u8>, tick: spec_fn(nat) -> u64, part: u8)
    ensures
        p.code == seq![0x45u8, part, 0xFFu8] ==> execute(p, data, tick) == (
            field(data, p.delimiter, part as int).len() == 0,
            0nat,
        ),
        p.code == seq![0x46u8, part, 0xFFu8] ==> execute(p, data, tick) == (
            field(data, p.delimiter, part as int).len() > 0,
            0nat,
        ),
{
    if p.code == seq![0x45u8, part, 0xFFu8] || p.code == seq![0x46u8, part, 0xFFu8] {
        let e = Seq::<bool>::empty();
        let fd = field(data, p.delimiter, part as int);
        let b = (fd.len() == 0) == (p.code[0] == 0x45);
        assert(step(p, data, tick, 0, e, 0) == Step::Next(2, e.push(b), 0));
        lemma_run_unfold(p, data, tick, 0, e, 0, 2, e.push(b), 0);
        assert(step(p, data, tick, 2, e.push(b), 0) == Step::Return(b));
        reveal(run);
    }
}

/// Header tests on field `part` for header name string 0 (and value string
/// 1), followed by `Return`: `0x50` compares the header's value with the
/// value exactly, `0x51` without ASCII case, `0x52` looks for the value in
/// it, and `0x53` asks whether the header is there; an absent header gives
/// false.
pub proof fn lemma_header_test_program(p: Program, data: Seq<u8>, tick: spec_fn(nat) -> u64, op: u8, part: u8)
    requires
        p.strings.len() >= 2,
    ensures
        ({
            let hv = header_value(field(data, p.delimiter, part as int), p.strings[0]);
            let v = p.strings[1];
            &&& (op == 0x50 && p.code == seq![op, part, 0u8, 0u8, 1u8, 0u8, 0xFFu8]) ==> execute(p, data, tick)
                == (hv == Some(v), 0nat)
            &&& (op == 0x51 && p.code == seq![op, part, 0u8, 0u8, 1u8, 0u8, 0xFFu8]) ==> execute(p, data, tick)
                == (hv matches Some(x) && eq_ignore_case(x, v), 0nat)
            &&& (op == 0x52 && p.code == seq![op, part, 0u8, 0u8, 1u8, 0u8, 0xFFu8]) ==> execute(p, data, tick)
                == (hv matches Some(x) && exists|i: int|
                0 <= i && i + v.len() <= x.len() && #[trigger] x.subrange(i, i + v.len()) == v, 0nat)
            &&& (op == 0x53 && p.code == seq![op, part, 0u8, 0u8, 0xFFu8]) ==> execute(p, data, tick) == (
                hv is Some,
                0nat,
            )
        }),
{
    let hv = header_value(field(data, p.delimiter, part as int), p.strings[0]);
    let v = p.strings[1];
    let e = Seq::<bool>::empty();
    if 0x50 <= op <= 0x52 && p.code == seq![op, part, 0u8, 0u8, 1u8, 0u8, 0xFFu8] {
        assert(u16_at(p.code, 2) == 0 && u16_at(p.code, 4) == 1);
        let b = header_result(p, op, field(data, p.delimiter, part as int), 0, 1)->Some_0;
        assert(step(p, data, tick, 0, e, 0) == Step::Next(6, e.push(b), 0));
        lemma_run_unfold(p, data, tick, 0, e, 0, 6, e.push(b), 0);
        assert(step(p, data, tick, 6, e.push(b), 0) == Step::Return(b));
        reveal(run);
        if hv is Some {
            lemma_str_test_meaning(hv->Some_0, v);
        }
    }
    if op == 0x53 && p.code == seq![op, part, 0u8, 0u8, 0xFFu8] {
        assert(u16_at(p.code, 2) == 0);
        let b = hv is Some;
        assert(step(p, data, tick, 0, e, 0) == Step::Next(4, e.push(b), 0));
        lemma_run_unfold(p, data, tick, 0, e, 0, 4, e.push(b), 0);
        assert(step(p, data, tick, 4, e.push(b), 0) == Step::Return(b));
        reveal(run);
    }
}

/// `rand(m)` followed by `Return`: for `m` of at least 2 it makes one draw
/// and is true exactly when the counter value it observes is a multiple of
/// `m`; for smaller `m` it is true without a draw.
pub proof fn lemma_rand_program(p: Program, data: Seq<u8>, tick: spec_fn(nat) -> u64, lo: u8, hi: u8)
    requires
        p.code == seq![0x60u8, lo, hi, 0xFFu8],
    ensures
        ({
            let m = lo + 256 * hi;
            &&& m <= 1 ==> execute(p, data, tick) == (true, 0nat)
            &&& m >= 2 ==> execute(p, data, tick) == (tick(0) as int % m == 0, 1nat)
        }),
{
    let m = lo + 256 * hi;
    let e = Seq::<bool>::empty();
    assert(u16_at(p.code, 1) == m);
    if m <= 1 {
        assert(step(p, data, tick, 0, e, 0) == Step::Next(3, e.push(true), 0));
        lemma_run_unfold(p, data, tick, 0, e, 0, 3, e.push(true), 0);
        assert(step(p, data, tick, 3, e.push(true), 0) == Step::Return(true));
    } else {
        let b = tick(0) % (m as u64) == 0;
        assert(b == (tick(0) as int % m == 0));
        assert(step(p, data, tick, 0, e, 0) == Step::Next(3, e.push(b), 1));
        lemma_run_unfold(p, data, tick, 0, e, 0, 3, e.push(b), 1);
        assert(step(p, data, tick, 3, e.push(b), 1) == Step::Return(b));
    }
    reveal(run);
}

/// A filter run that draws no random value gives the same answer whatever
/// values the draws would have observed.
pub proof fn lemma_execute_without_draws(
    p: Program,
    data: Seq<u8>,
    f: spec_fn(nat) -> u64,
    g: spec_fn(nat) -> u64,
)
    requires
        execute(p, data, f).1 == 0,
    ensures
        execute(p, data, g) == execute(p, data, f),
{
    lemma_run_without_draws(p, data, f, g, 0, Seq::empty(), 0);
}

} // verus!
