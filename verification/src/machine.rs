//! The two-head tape machine: a fixed instruction set over a circular byte
//! tape, executed for a bounded number of steps.

use vstd::prelude::*;

verus! {

/// How one run of the tape machine ended.
#[derive(Clone, Copy, Debug, PartialEq, Eq, Structural)]
pub enum Outcome {
    RanOutOfSteps,
    Finished,
    UnmatchedOpenBracket,
    UnmatchedCloseBracket,
}

/// The mathematical state of a machine between steps: the tape contents, the
/// two circular data cursors, the linear program counter, and the count of
/// bytes that matched no instruction.
pub struct MState {
    pub tape: Seq<u8>,
    pub head0: int,
    pub head1: int,
    pub pc: int,
    pub skipped: int,
}

/// One step left on a circular range of length `n`.
pub open spec fn wrap_dec(i: int, n: int) -> int {
    if i == 0 {
        n - 1
    } else {
        i - 1
    }
}

/// One step right on a circular range of length `n`.
pub open spec fn wrap_inc(i: int, n: int) -> int {
    if i + 1 == n {
        0
    } else {
        i + 1
    }
}

/// Decrement of a cell value: the byte wraps around first and the result is
/// then reduced modulo 255, so a cell holding 0 underflows to 255 and lands
/// on 0, while every other value steps down by one.
pub open spec fn cell_dec(v: u8) -> u8 {
    ((((v as int) + 255) % 256) % 255) as u8
}

/// Increment of a cell value: the byte wraps around first and the result is
/// then reduced modulo 255, so 254 and 255 both land on 0, while every other
/// value steps up by one.
pub open spec fn cell_inc(v: u8) -> u8 {
    ((((v as int) + 1) % 256) % 255) as u8
}

/// Depth change a byte contributes to a forward bracket scan.
pub open spec fn bracket_delta(b: u8) -> int {
    if b == 91 {  // b'['
        1
    } else if b == 93 {  // b']'
        -1
    } else {
        0
    }
}

/// Net bracket depth accumulated over the half-open index range [lo, hi).
pub open spec fn net_depth(tape: Seq<u8>, lo: int, hi: int) -> int
    decreases hi - lo,
{
    if lo >= hi {
        0
    } else {
        bracket_delta(tape[lo]) + net_depth(tape, lo + 1, hi)
    }
}

/// Forward scan from index `i` with current nesting depth `depth`: the first
/// index at which the depth reaches zero, or `None` if the tape ends first.
pub open spec fn scan_fwd(tape: Seq<u8>, i: int, depth: int) -> Option<int>
    decreases tape.len() - i,
{
    if i < 0 || i >= tape.len() {
        None
    } else {
        let d2 = depth + bracket_delta(tape[i]);
        if d2 == 0 {
            Some(i)
        } else {
            scan_fwd(tape, i + 1, d2)
        }
    }
}

/// Backward scan from index `i` with current nesting depth `depth`: brackets
/// count with the opposite sign, and the scan moves toward index 0.
pub open spec fn scan_bwd(tape: Seq<u8>, i: int, depth: int) -> Option<int>
    decreases i + 1,
{
    if i < 0 || i >= tape.len() {
        None
    } else {
        let d2 = depth - bracket_delta(tape[i]);
        if d2 == 0 {
            Some(i)
        } else {
            scan_bwd(tape, i - 1, d2)
        }
    }
}

/// One instruction, executed at `s.pc` (which must be a valid tape index).
/// `None` means the machine goes on with the returned state, whose `pc` has
/// already been advanced by one past any jump; `Some` is an unmatched-bracket
/// halt, with the state left exactly as it was.
pub open spec fn step_model(s: MState) -> (MState, Option<Outcome>) {
    let n = s.tape.len() as int;
    let instr = s.tape[s.pc];
    if instr == 60 {  // b'<'
        (MState { head0: wrap_dec(s.head0, n), pc: s.pc + 1, ..s }, None)
    } else if instr == 62 {  // b'>'
        (MState { head0: wrap_inc(s.head0, n), pc: s.pc + 1, ..s }, None)
    } else if instr == 123 {  // b'{'
        (MState { head1: wrap_dec(s.head1, n), pc: s.pc + 1, ..s }, None)
    } else if instr == 125 {  // b'}'
        (MState { head1: wrap_inc(s.head1, n), pc: s.pc + 1, ..s }, None)
    } else if instr == 45 {  // b'-'
        (MState { tape: s.tape.update(s.head0, cell_dec(s.tape[s.head0])), pc: s.pc + 1, ..s }, None)
    } else if instr == 43 {  // b'+'
        (MState { tape: s.tape.update(s.head0, cell_inc(s.tape[s.head0])), pc: s.pc + 1, ..s }, None)
    } else if instr == 46 {  // b'.'
        (MState { tape: s.tape.update(s.head1, s.tape[s.head0]), pc: s.pc + 1, ..s }, None)
    } else if instr == 44 {  // b','
        (MState { tape: s.tape.update(s.head0, s.tape[s.head1]), pc: s.pc + 1, ..s }, None)
    } else if instr == 91 {  // b'['
        if s.tape[s.head0] == 48 {  // b'0'
            match scan_fwd(s.tape, s.pc + 1, 1) {
                Some(j) => (MState { pc: j + 1, ..s }, None),
                None => (s, Some(Outcome::UnmatchedOpenBracket)),
            }
        } else {
            (MState { pc: s.pc + 1, ..s }, None)
        }
    } else if instr == 93 {  // b']'
        if s.tape[s.head0] != 48 {  // b'0'
            match scan_bwd(s.tape, s.pc - 1, 1) {
                Some(j) => (MState { pc: j + 1, ..s }, None),
                None => (s, Some(Outcome::UnmatchedCloseBracket)),
            }
        } else {
            (MState { pc: s.pc + 1, ..s }, None)
        }
    } else {
        (MState { skipped: s.skipped + 1, pc: s.pc + 1, ..s }, None)
    }
}

/// The whole run: steps are taken while the budget lasts and `pc` is a valid
/// index; the result is the final state, the number of iterations consumed,
/// and the outcome. The machine's result is a function of these arguments
/// alone: two runs from equal configurations are equal.
pub open spec fn run_model(s: MState, iter: nat, budget: nat) -> (MState, nat, Outcome)
    decreases budget - iter,
{
    if iter >= budget {
        (s, iter, Outcome::RanOutOfSteps)
    } else {
        let (s2, halt) = step_model(s);
        match halt {
            Some(o) => (s, iter, o),
            None => if s2.pc >= s.tape.len() {
                (s2, (iter + 1) as nat, Outcome::Finished)
            } else {
                run_model(s2, (iter + 1) as nat, budget)
            },
        }
    }
}

/// One machine run over a tape, with its cursors, its step budget, and the
/// counters the run accumulates.
pub struct BFFRun {
    pub tape: Vec<u8>,
    pub head0_pos: usize,
    pub head1_pos: usize,
    pub pc_pos: usize,
    pub max_iterations: usize,
    pub iteration: usize,
    pub skipped: usize,
    pub outcome: Outcome,
}

impl BFFRun {
    /// The mathematical state this run is in.
    pub open spec fn mstate(self) -> MState {
        MState {
            tape: self.tape@,
            head0: self.head0_pos as int,
            head1: self.head1_pos as int,
            pc: self.pc_pos as int,
            skipped: self.skipped as int,
        }
    }

    /// A run that can take a step: the cursors and the program counter index
    /// into a nonempty tape, and the skip counter never runs ahead of the
    /// iteration counter.
    pub open spec fn wf(self) -> bool {
        &&& self.tape@.len() >= 1
        &&& (self.head0_pos as int) < self.tape@.len()
        &&& (self.head1_pos as int) < self.tape@.len()
        &&& (self.pc_pos as int) < self.tape@.len()
        &&& self.skipped <= self.iteration
    }

    /// A fresh run over `tape` with every position given explicitly and the
    /// counters at zero.
    pub fn new(tape: Vec<u8>, head0: usize, head1: usize, pc: usize, max_iterations: usize) -> (r: BFFRun)
        ensures
            r.tape@ == tape@,
            r.head0_pos == head0,
            r.head1_pos == head1,
            r.pc_pos == pc,
            r.max_iterations == max_iterations,
            r.iteration == 0,
            r.skipped == 0,
            r.outcome == Outcome::RanOutOfSteps,
    {
        BFFRun {
            tape,
            head0_pos: head0,
            head1_pos: head1,
            pc_pos: pc,
            max_iterations,
            iteration: 0,
            skipped: 0,
            outcome: Outcome::RanOutOfSteps,
        }
    }

    /// A run over a tape made of two genomes laid end to end: head0 at the
    /// start, head1 at the start of the second genome, and the conventional
    /// step budget of 128.
    pub fn from_vec(input_tape: Vec<u8>) -> (r: BFFRun)
        ensures
            r.tape@ == input_tape@,
            r.head0_pos == 0,
            r.head1_pos == input_tape@.len() / 2,
            r.pc_pos == 0,
            r.max_iterations == 128,
            r.iteration == 0,
            r.skipped == 0,
            r.outcome == Outcome::RanOutOfSteps,
    {
        let half = input_tape.len() / 2;
        BFFRun::new(input_tape, 0, half, 0, 128)
    }
}

/// The forward scan for the bracket matching `[`: from `start` with depth 1,
/// toward the end of the tape.
fn scan_forward(tape: &Vec<u8>, start: usize) -> (r: Option<usize>)
    requires
        1 <= start,
    ensures
        match r {
            Some(j) => scan_fwd(tape@, start as int, 1) == Some(j as int) && start <= j < tape@.len(),
            None => scan_fwd(tape@, start as int, 1) is None,
        },
{
    let n = tape.len();
    if start >= n {
        return None;
    }
    let mut i = start;
    let mut depth: usize = 1;
    while i < n
        invariant
            1 <= start <= i <= n,
            n == tape@.len(),
            1 <= depth,
            depth <= i - start + 1,
            scan_fwd(tape@, start as int, 1) == scan_fwd(tape@, i as int, depth as int),
        decreases n - i,
    {
        let b = tape[i];
        let d2 = if b == 91 {
            depth + 1
        } else if b == 93 {
            depth - 1
        } else {
            depth
        };
        if d2 == 0 {
            return Some(i);
        }
        depth = d2;
        i = i + 1;
    }
    None
}

/// The backward scan for the bracket matching `]`: from `pc - 1` with depth 1,
/// toward the start of the tape. `i` holds one past the next index to read.
fn scan_backward(tape: &Vec<u8>, pc: usize) -> (r: Option<usize>)
    requires
        pc < tape@.len(),
    ensures
        match r {
            Some(j) => scan_bwd(tape@, pc as int - 1, 1) == Some(j as int) && j < pc,
            None => scan_bwd(tape@, pc as int - 1, 1) is None,
        },
{
    let n = tape.len();
    let mut i = pc;
    let mut depth: usize = 1;
    while i > 0
        invariant
            n == tape@.len(),
            i <= pc < n,
            1 <= depth,
            depth <= pc - i + 1,
            scan_bwd(tape@, pc as int - 1, 1) == scan_bwd(tape@, i as int - 1, depth as int),
        decreases i,
    {
        i = i - 1;
        let b = tape[i];
        let d2 = if b == 93 {
            depth + 1
        } else if b == 91 {
            depth - 1
        } else {
            depth
        };
        if d2 == 0 {
            return Some(i);
        }
        depth = d2;
    }
    None
}

impl BFFRun {
    /// One budgeted iteration of the run loop: execute the instruction under
    /// `pc`, advance `pc`, and report a halt when one happened. `None` means
    /// the run goes on and the state is well formed for the next step.
    pub fn step(&mut self) -> (halted: Option<Outcome>)
        requires
            old(self).wf(),
            old(self).iteration < old(self).max_iterations,
        ensures
            final(self).tape@.len() == old(self).tape@.len(),
            final(self).max_iterations == old(self).max_iterations,
            ({
                let (s2, halt) = step_model(old(self).mstate());
                match halt {
                    Some(o) => {
                        &&& final(self).mstate() == old(self).mstate()
                        &&& final(self).iteration == old(self).iteration
                        &&& halted == Some(o)
                        &&& final(self).outcome == o
                    },
                    None => {
                        &&& final(self).mstate() == s2
                        &&& final(self).iteration == old(self).iteration + 1
                        &&& if s2.pc >= old(self).tape@.len() {
                            halted == Some(Outcome::Finished) && final(self).outcome == Outcome::Finished
                        } else {
                            halted == Option::<Outcome>::None && final(self).wf()
                                && final(self).outcome == old(self).outcome
                        }
                    },
                }
            }),
    {
        let n = self.tape.len();
        let instr = self.tape[self.pc_pos];
        if instr == 60 {  // b'<'
            self.head0_pos = if self.head0_pos == 0 { n - 1 } else { self.head0_pos - 1 };
        } else if instr == 62 {  // b'>'
            self.head0_pos = if self.head0_pos + 1 == n { 0 } else { self.head0_pos + 1 };
        } else if instr == 123 {  // b'{'
            self.head1_pos = if self.head1_pos == 0 { n - 1 } else { self.head1_pos - 1 };
        } else if instr == 125 {  // b'}'
            self.head1_pos = if self.head1_pos + 1 == n { 0 } else { self.head1_pos + 1 };
        } else if instr == 45 {  // b'-'
            let v = self.tape[self.head0_pos];
            self.tape.set(self.head0_pos, (((v as u16 + 255) % 256) % 255) as u8);
        } else if instr == 43 {  // b'+'
            let v = self.tape[self.head0_pos];
            self.tape.set(self.head0_pos, (((v as u16 + 1) % 256) % 255) as u8);
        } else if instr == 46 {  // b'.'
            let v = self.tape[self.head0_pos];
            self.tape.set(self.head1_pos, v);
        } else if instr == 44 {  // b','
            let v = self.tape[self.head1_pos];
            self.tape.set(self.head0_pos, v);
        } else if instr == 91 {  // b'['
            if self.tape[self.head0_pos] == 48 {  // b'0'
                match scan_forward(&self.tape, self.pc_pos + 1) {
                    Some(j) => {
                        self.pc_pos = j;
                    },
                    None => {
                        self.outcome = Outcome::UnmatchedOpenBracket;
                        return Some(Outcome::UnmatchedOpenBracket);
                    },
                }
            }
        } else if instr == 93 {  // b']'
            if self.tape[self.head0_pos] != 48 {  // b'0'
                match scan_backward(&self.tape, self.pc_pos) {
                    Some(j) => {
                        self.pc_pos = j;
                    },
                    None => {
                        self.outcome = Outcome::UnmatchedCloseBracket;
                        return Some(Outcome::UnmatchedCloseBracket);
                    },
                }
            }
        } else {
            self.skipped = self.skipped + 1;
        }
        self.iteration = self.iteration + 1;
        self.pc_pos = self.pc_pos + 1;
        if self.pc_pos >= n {
            self.outcome = Outcome::Finished;
            Some(Outcome::Finished)
        } else {
            None
        }
    }

    /// Run the machine to its end: at most `max_iterations` steps, stopping
    /// early on an unmatched bracket or when `pc` leaves the tape. The result
    /// is pinned to `run_model`, so identical inputs always yield identical
    /// tapes, cursors, outcomes and counts.
    pub fn emulate(self) -> (r: BFFRun)
        requires
            self.wf(),
        ensures
            ({
                let (fs, iters, out) = run_model(self.mstate(), self.iteration as nat, self.max_iterations as nat);
                &&& r.mstate() == fs
                &&& r.iteration == iters
                &&& r.outcome == out
                &&& r.max_iterations == self.max_iterations
            }),
    {
        let ghost init = self.mstate();
        let ghost it0 = self.iteration as nat;
        let ghost budget = self.max_iterations as nat;
        let mut cur = self;
        cur.outcome = Outcome::RanOutOfSteps;
        while cur.iteration < cur.max_iterations
            invariant_except_break
                cur.wf(),
                cur.outcome == Outcome::RanOutOfSteps,
                cur.max_iterations as nat == budget,
                run_model(init, it0, budget) == run_model(cur.mstate(), cur.iteration as nat, budget),
            ensures
                cur.max_iterations as nat == budget,
                run_model(init, it0, budget) == (cur.mstate(), cur.iteration as nat, cur.outcome),
            decreases budget - cur.iteration,
        {
            match cur.step() {
                Some(_o) => {
                    break;
                },
                None => {},
            }
        }
        cur
    }
}

/// Determinism: the run is a pure function of tape, cursors, program counter
/// and budget; two runs from equal configurations are equal in every part.
pub proof fn lemma_run_deterministic(a: MState, b: MState, iter: nat, budget: nat)
    requires
        a == b,
    ensures
        run_model(a, iter, budget) == run_model(b, iter, budget),
{
}

/// Both data cursors index into the tape.
pub open spec fn cursors_in_range(s: MState) -> bool {
    &&& 0 <= s.head0 < s.tape.len()
    &&& 0 <= s.head1 < s.tape.len()
}

proof fn lemma_scan_fwd_bounds(tape: Seq<u8>, i: int, depth: int, j: int)
    requires
        scan_fwd(tape, i, depth) == Some(j),
    ensures
        i <= j < tape.len(),
    decreases tape.len() - i,
{
    if 0 <= i < tape.len() {
        let d2 = depth + bracket_delta(tape[i]);
        if d2 != 0 {
            lemma_scan_fwd_bounds(tape, i + 1, d2, j);
        }
    }
}

proof fn lemma_scan_bwd_bounds(tape: Seq<u8>, i: int, depth: int, j: int)
    requires
        scan_bwd(tape, i, depth) == Some(j),
    ensures
        0 <= j <= i,
    decreases i + 1,
{
    if 0 <= i < tape.len() {
        let d2 = depth - bracket_delta(tape[i]);
        if d2 != 0 {
            lemma_scan_bwd_bounds(tape, i - 1, d2, j);
        }
    }
}

/// Cursor wraparound: one step keeps both data cursors inside the tape, and
/// at the edges they wrap: moving left from 0 lands on `len - 1`, moving
/// right from `len - 1` lands on 0.
pub proof fn lemma_step_cursors_in_range(s: MState)
    requires
        cursors_in_range(s),
        0 <= s.pc < s.tape.len(),
    ensures
        cursors_in_range(step_model(s).0),
        step_model(s).0.tape.len() == s.tape.len(),
        s.tape[s.pc] == 60 && s.head0 == 0 ==> step_model(s).0.head0 == s.tape.len() - 1,
        s.tape[s.pc] == 62 && s.head0 == s.tape.len() - 1 ==> step_model(s).0.head0 == 0,
        s.tape[s.pc] == 123 && s.head1 == 0 ==> step_model(s).0.head1 == s.tape.len() - 1,
        s.tape[s.pc] == 125 && s.head1 == s.tape.len() - 1 ==> step_model(s).0.head1 == 0,
{
}

/// A whole run keeps the tape length, keeps both cursors in range, and leaves
/// the program counter in `[0, len]`.
pub proof fn lemma_run_model_preserves(s: MState, iter: nat, budget: nat)
    requires
        cursors_in_range(s),
        0 <= s.pc < s.tape.len(),
    ensures
        run_model(s, iter, budget).0.tape.len() == s.tape.len(),
        cursors_in_range(run_model(s, iter, budget).0),
        0 <= run_model(s, iter, budget).0.pc <= s.tape.len(),
    decreases budget - iter,
{
    if iter < budget {
        let (s2, halt) = step_model(s);
        if s.tape[s.pc] == 91 && s.tape[s.head0] == 48 {
            match scan_fwd(s.tape, s.pc + 1, 1) {
                Some(j) => lemma_scan_fwd_bounds(s.tape, s.pc + 1, 1, j),
                None => (),
            }
        }
        if s.tape[s.pc] == 93 && s.tape[s.head0] != 48 {
            match scan_bwd(s.tape, s.pc - 1, 1) {
                Some(j) => lemma_scan_bwd_bounds(s.tape, s.pc - 1, 1, j),
                None => (),
            }
        }
        match halt {
            Some(_o) => (),
            None => {
                lemma_step_cursors_in_range(s);
                if s2.pc < s.tape.len() {
                    lemma_run_model_preserves(s2, iter + 1, budget);
                }
            },
        }
    }
}

proof fn lemma_net_depth_split(tape: Seq<u8>, lo: int, mid: int, hi: int)
    requires
        lo <= mid <= hi,
    ensures
        net_depth(tape, lo, hi) == net_depth(tape, lo, mid) + net_depth(tape, mid, hi),
    decreases mid - lo,
{
    if lo < mid {
        lemma_net_depth_split(tape, lo + 1, mid, hi);
    }
}

proof fn lemma_net_depth_one(tape: Seq<u8>, i: int)
    ensures
        net_depth(tape, i, i + 1) == bracket_delta(tape[i]),
{
    assert(net_depth(tape, i + 1, i + 1) == 0);
}

/// The forward scan stops exactly at the first index `j` at which the running
/// depth, started at `d`, reaches zero.
proof fn lemma_scan_fwd_finds_first(tape: Seq<u8>, s: int, d: int, j: int)
    requires
        1 <= d,
        0 <= s <= j < tape.len(),
        d + net_depth(tape, s, j + 1) == 0,
        forall|m: int| s < m <= j ==> d + net_depth(tape, s, m) > 0,
    ensures
        scan_fwd(tape, s, d) == Some(j),
    decreases j - s,
{
    lemma_net_depth_one(tape, s);
    let d2 = d + bracket_delta(tape[s]);
    if s < j {
        assert(d + net_depth(tape, s, s + 1) > 0);
        let s1: int = s + 1;
        assert forall|m: int| s1 < m <= j implies d2 + net_depth(tape, s1, m) > 0 by {
            assert(net_depth(tape, s, m) == bracket_delta(tape[s]) + net_depth(tape, s1, m));
        }
        assert(net_depth(tape, s, j + 1) == bracket_delta(tape[s]) + net_depth(tape, s + 1, j + 1));
        lemma_scan_fwd_finds_first(tape, s + 1, d2, j);
    }
}

/// The backward scan from `e - 1` stops exactly at the first index `j`,
/// counting down, at which the running depth, started at `d`, reaches zero.
proof fn lemma_scan_bwd_finds_first(tape: Seq<u8>, e: int, d: int, j: int)
    requires
        1 <= d,
        0 <= j < e <= tape.len(),
        d - net_depth(tape, j, e) == 0,
        forall|k: int| j < k < e ==> d - net_depth(tape, k, e) > 0,
    ensures
        scan_bwd(tape, e - 1, d) == Some(j),
    decreases e - j,
{
    let e1: int = e - 1;
    lemma_net_depth_one(tape, e1);
    let d2 = d - bracket_delta(tape[e1]);
    if e1 > j {
        assert(d - net_depth(tape, e1, e) > 0);
        assert forall|k: int| j < k < e1 implies d2 - net_depth(tape, k, e1) > 0 by {
            lemma_net_depth_split(tape, k, e1, e);
        }
        lemma_net_depth_split(tape, j, e1, e);
        lemma_scan_bwd_finds_first(tape, e1, d2, j);
    }
}

/// `close` holds the `]` matching the `[` at `open`: the bracket depth over
/// the enclosed range returns to zero there for the first time.
pub open spec fn is_matching_close(tape: Seq<u8>, open: int, close: int) -> bool {
    &&& 0 <= open < close < tape.len()
    &&& tape[open] == 91
    &&& tape[close] == 93
    &&& net_depth(tape, open, close + 1) == 0
    &&& forall|m: int| open + 1 < m <= close ==> net_depth(tape, open, m) > 0
}

/// Bracket correctness, forward: executing `[` when the cell under head0
/// holds '0' leaves the program counter exactly one past the matching `]`.
pub proof fn lemma_open_bracket_jumps_past_match(s: MState, close: int)
    requires
        0 <= s.pc < s.tape.len(),
        0 <= s.head0 < s.tape.len(),
        s.tape[s.head0] == 48,
        is_matching_close(s.tape, s.pc, close),
    ensures
        step_model(s).1 is None,
        step_model(s).0.pc == close + 1,
{
    let pc = s.pc;
    lemma_net_depth_one(s.tape, pc);
    assert(net_depth(s.tape, pc, close + 1) == 1 + net_depth(s.tape, pc + 1, close + 1));
    let p1: int = pc + 1;
    assert forall|m: int| p1 < m <= close implies 1 + net_depth(s.tape, p1, m) > 0 by {
        assert(net_depth(s.tape, pc, m) == 1 + net_depth(s.tape, p1, m));
    }
    lemma_scan_fwd_finds_first(s.tape, pc + 1, 1, close);
}

/// Bracket correctness, backward: executing `]` when the cell under head0
/// does not hold '0' leaves the program counter exactly one past the matching
/// `[`.
pub proof fn lemma_close_bracket_jumps_past_match(s: MState, open: int)
    requires
        0 <= s.pc < s.tape.len(),
        0 <= s.head0 < s.tape.len(),
        s.tape[s.head0] != 48,
        is_matching_close(s.tape, open, s.pc),
    ensures
        step_model(s).1 is None,
        step_model(s).0.pc == open + 1,
{
    let pc = s.pc;
    lemma_net_depth_one(s.tape, pc);
    lemma_net_depth_split(s.tape, open, pc, pc + 1);
    assert(net_depth(s.tape, open, pc) == 1);
    assert forall|k: int| open < k < pc implies 1 - net_depth(s.tape, k, pc) > 0 by {
        lemma_net_depth_split(s.tape, open, k, pc);
        if k == open + 1 {
            assert(net_depth(s.tape, open, k) == bracket_delta(s.tape[open]) + net_depth(s.tape, k, k));
        } else {
            assert(net_depth(s.tape, open, k) > 0);
        }
    }
    lemma_scan_bwd_finds_first(s.tape, pc, 1, open);
}

} // verus!


