use vstd::prelude::*;

use crate::container::ExpandingVec;
use crate::container::TapeModel;
use crate::container::lemma_grow_bounds;
use crate::container::lemma_grow_idempotent;
use crate::container::lemma_grow_preserves_at;
use crate::container::lemma_write_at;
use crate::State;
use crate::Token;

verus! {

/// How the head moves after a transition fires: one cell left, not at all,
/// or one cell right.
#[derive(Debug, PartialEq, Eq, Copy, Clone, Structural)]
pub enum MoveHead {
    LEFT,
    NOT,
    RIGHT,
}

impl MoveHead {
    /// The signed head displacement this move stands for.
    pub open spec fn offset(self) -> int {
        match self {
            MoveHead::LEFT => -1,
            MoveHead::NOT => 0,
            MoveHead::RIGHT => 1,
        }
    }

    pub fn head_offset(&self) -> (r: i64)
        ensures
            r == self.offset(),
    {
        match self {
            MoveHead::LEFT => -1,
            MoveHead::NOT => 0,
            MoveHead::RIGHT => 1,
        }
    }
}

/// One rule of a machine: in state `curr_state` reading `curr_token`, write
/// `next_token`, enter `next_state`, and move the head by `move_head`.
#[derive(Debug, PartialEq, Eq, Copy, Clone, Structural)]
pub struct Transition {
    pub curr_token: Token,
    pub curr_state: State,
    pub next_token: Token,
    pub next_state: State,
    pub move_head: MoveHead,
}

impl Transition {
    /// Whether this rule fires on the configuration reading `token` in `state`.
    pub open spec fn matches(self, token: Token, state: State) -> bool {
        self.curr_token == token && self.curr_state == state
    }

    pub fn new(
        curr_token: Token,
        curr_state: State,
        next_token: Token,
        next_state: State,
        move_head: MoveHead,
    ) -> (r: Transition)
        ensures
            r == (Transition { curr_token, curr_state, next_token, next_state, move_head }),
    {
        Transition { curr_token, curr_state, next_token, next_state, move_head }
    }
}

/// The first transition in declared order that fires on `(token, state)`,
/// or `None` when no rule does.
pub open spec fn first_match(ts: Seq<Transition>, token: Token, state: State) -> Option<Transition>
    decreases ts.len(),
{
    if ts.len() == 0 {
        None
    } else if ts[0].matches(token, state) {
        Some(ts[0])
    } else {
        first_match(ts.drop_first(), token, state)
    }
}

/// What `first_match` finds: a matching rule that no earlier rule precedes,
/// and nothing exactly when no rule matches.
pub proof fn lemma_first_match(ts: Seq<Transition>, token: Token, state: State)
    ensures
        match first_match(ts, token, state) {
            Some(t) => {
                &&& t.matches(token, state)
                &&& exists|k: int|
                    0 <= k < ts.len() && ts[k] == t && #[trigger] ts[k].matches(token, state)
                        && forall|j: int| 0 <= j < k ==> !(#[trigger] ts[j].matches(token, state))
            },
            None => forall|j: int| 0 <= j < ts.len() ==> !(#[trigger] ts[j].matches(token, state)),
        },
    decreases ts.len(),
{
    if ts.len() > 0 && !ts[0].matches(token, state) {
        lemma_first_match(ts.drop_first(), token, state);
        let rest = ts.drop_first();
        match first_match(rest, token, state) {
            Some(t) => {
                let k = choose|k: int|
                    0 <= k < rest.len() && rest[k] == t && #[trigger] rest[k].matches(token, state)
                        && forall|j: int| 0 <= j < k ==> !(#[trigger] rest[j].matches(token, state));
                assert(ts[k + 1] == rest[k]);
                assert forall|j: int| 0 <= j < k + 1 implies !(#[trigger] ts[j].matches(
                    token,
                    state,
                )) by {
                    if 1 <= j {
                        assert(ts[j] == rest[j - 1]);
                    }
                };
            },
            None => {
                assert forall|j: int| 0 <= j < ts.len() implies !(#[trigger] ts[j].matches(
                    token,
                    state,
                )) by {
                    if 1 <= j {
                        assert(ts[j] == rest[j - 1]);
                    }
                };
            },
        }
    }
}

/// An immutable machine definition: descriptive alphabets and state set, the
/// transition rules in declared order, the start state, and the blank symbol
/// that fills unexplored tape cells.
#[derive(Debug, PartialEq, Eq)]
pub struct TouringMachine {
    pub input_alphabet: Vec<Token>,
    pub states: Vec<State>,
    pub work_alphabet: Vec<Token>,
    pub transitions: Vec<Transition>,
    pub start_state: State,
    pub empty_symbol: Token,
}

impl TouringMachine {
    /// The first transition in declared order matching `(token, state)`;
    /// earlier rules win when several share the same key.
    pub fn find_transition(&self, token: Token, state: State) -> (r: Option<Transition>)
        ensures
            r == first_match(self.transitions@, token, state),
    {
        let n = self.transitions.len();
        let mut i: usize = 0;
        proof {
            assert(self.transitions@.skip(0) =~= self.transitions@);
        }
        while i < n
            invariant
                n == self.transitions@.len(),
                0 <= i <= n,
                first_match(self.transitions@, token, state) == first_match(
                    self.transitions@.skip(i as int),
                    token,
                    state,
                ),
            decreases n - i,
        {
            let t = self.transitions[i];
            proof {
                assert(self.transitions@.skip(i as int)[0] == self.transitions@[i as int]);
                assert(self.transitions@.skip(i as int).drop_first() =~= self.transitions@.skip(
                    i as int + 1,
                ));
            }
            if t.curr_token == token && t.curr_state == state {
                proof {
                    assert(self.transitions@.skip(i as int)[0].matches(token, state));
                }
                return Some(t);
            }
            i = i + 1;
        }
        proof {
            assert(self.transitions@.skip(n as int) =~= Seq::<Transition>::empty());
        }
        None
    }
}

/// One instant of a running machine: the tape contents, the head position,
/// and the control state.
#[verifier::ext_equal]
pub ghost struct Config {
    pub tape: TapeModel,
    pub head: int,
    pub state: State,
}

/// The configuration after one step on configuration `c` under the rules
/// `ts`: the first matching rule writes its symbol under the head, the head
/// moves and its new cell is materialized, and the state is updated; with no
/// matching rule, only the cell under the head is materialized by the read.
pub open spec fn step(ts: Seq<Transition>, c: Config) -> Config {
    match first_match(ts, c.tape.at(c.head), c.state) {
        Some(t) => Config {
            tape: c.tape.write(c.head, t.next_token).grow(c.head + t.move_head.offset()),
            head: c.head + t.move_head.offset(),
            state: t.next_state,
        },
        None => Config { tape: c.tape.grow(c.head), head: c.head, state: c.state },
    }
}

/// Whether one step on configuration `c` changes the control state or the
/// head position; `false` is the halt signal.
pub open spec fn step_changes(ts: Seq<Transition>, c: Config) -> bool {
    match first_match(ts, c.tape.at(c.head), c.state) {
        Some(t) => t.next_state != c.state || t.move_head.offset() != 0,
        None => false,
    }
}

/// Whether a step from configuration `c` stays within the machine limits of
/// the index type: the tape grown to the head, and one more cell for the
/// move, still spans fewer than `i64::MAX` cells.
pub open spec fn within_limits(c: Config) -> bool {
    &&& c.tape.wf()
    &&& c.tape.grow(c.head).cells.len() < i64::MAX as int
}

/// The configuration that stepping from `c` reaches within at most `fuel`
/// steps: stepping stops after a step that reported no change, and before a
/// step that would leave the machine limits of the index type.
pub open spec fn run_config(ts: Seq<Transition>, c: Config, fuel: nat) -> Config
    decreases fuel,
{
    if fuel == 0 || !within_limits(c) {
        c
    } else if !step_changes(ts, c) {
        step(ts, c)
    } else {
        run_config(ts, step(ts, c), (fuel - 1) as nat)
    }
}

/// Whether stepping from `c` reaches the halt criterion — a step that
/// reports no change — within at most `fuel` steps and within the machine
/// limits of the index type.
pub open spec fn run_halts(ts: Seq<Transition>, c: Config, fuel: nat) -> bool
    decreases fuel,
{
    if fuel == 0 || !within_limits(c) {
        false
    } else if !step_changes(ts, c) {
        true
    } else {
        run_halts(ts, step(ts, c), (fuel - 1) as nat)
    }
}

/// Halt detection: a rule that rewrites the read symbol unchanged, keeps the
/// state, and leaves the head in place is behaviorally a halt — the step it
/// fires on reports no change and leaves every readable cell, the head, and
/// the state as they were.
pub proof fn lemma_self_loop_halts(ts: Seq<Transition>, c: Config, t: Transition)
    requires
        first_match(ts, c.tape.at(c.head), c.state) == Some(t),
        t.next_token == t.curr_token,
        t.next_state == t.curr_state,
        t.move_head == MoveHead::NOT,
    ensures
        step_changes(ts, c) == false,
        step(ts, c).head == c.head,
        step(ts, c).state == c.state,
        forall|i: int| step(ts, c).tape.at(i) == c.tape.at(i),
{
    lemma_first_match(ts, c.tape.at(c.head), c.state);
    let written = c.tape.write(c.head, t.next_token);
    assert forall|i: int| step(ts, c).tape.at(i) == c.tape.at(i) by {
        lemma_write_at(c.tape, c.head, t.next_token, i);
        lemma_grow_preserves_at(written, c.head + t.move_head.offset(), i);
    }
}

/// One run's mutable state: a borrow of the immutable machine definition,
/// the expanding tape, the head position, and the current control state.
#[derive(Debug)]
pub struct TouringState<'a> {
    pub machine: &'a TouringMachine,
    pub input: ExpandingVec,
    pub head_position: i64,
    pub current_state: State,
}

impl<'a> TouringState<'a> {
    /// The configuration this run state is in.
    pub open spec fn config(self) -> Config {
        Config {
            tape: self.input@,
            head: self.head_position as int,
            state: self.current_state,
        }
    }

    /// The tape is well formed.
    pub open spec fn inv(self) -> bool {
        self.input@.wf()
    }

    /// Whether a step from this state stays within the machine limits of the
    /// index type.
    pub open spec fn can_step(self) -> bool {
        within_limits(self.config())
    }

    pub fn new(
        machine: &'a TouringMachine,
        input: Vec<Token>,
        head_position: i64,
        current_state: State,
    ) -> (r: TouringState<'a>)
        requires
            input@.len() <= i64::MAX as int,
        ensures
            r.machine == machine,
            r.input@ == (TapeModel { first: 0, cells: input@, blank: machine.empty_symbol }),
            r.head_position == head_position,
            r.current_state == current_state,
            r.inv(),
    {
        TouringState {
            machine,
            input: ExpandingVec::new(input, machine.empty_symbol),
            head_position,
            current_state,
        }
    }

    /// The symbol under the head; as a side effect materializes the head's
    /// cell if the head is outside the previously materialized bounds.
    pub fn current_token(&mut self) -> (r: Token)
        requires
            old(self).inv(),
            old(self).input@.grow(old(self).head_position as int).wf(),
        ensures
            r == old(self).input@.at(old(self).head_position as int),
            final(self).input@ == old(self).input@.grow(old(self).head_position as int),
            final(self).machine == old(self).machine,
            final(self).head_position == old(self).head_position,
            final(self).current_state == old(self).current_state,
            final(self).inv(),
    {
        let ghost m0 = self.input@;
        let ghost h = self.head_position as int;
        let r = *self.input.get(self.head_position);
        proof {
            lemma_grow_bounds(m0, h);
            lemma_write_at(m0, h, r, h);
            assert(self.input@ =~= m0.grow(h)) by {
                lemma_grow_preserves_at(m0, h, h);
                assert(m0.grow(h).cells =~= m0.grow(h).cells.update(h - m0.grow(h).first, r));
            };
        }
        r
    }

    /// Writes the transition's next symbol under the head, moves the head,
    /// materializes the head's new cell, and enters the next state. Trusts
    /// its input: the caller has verified that the transition matches.
    pub fn apply_transition(&mut self, transition: &Transition)
        requires
            old(self).can_step(),
        ensures
            final(self).input@ == old(self).input@.write(
                old(self).head_position as int,
                transition.next_token,
            ).grow(old(self).head_position + transition.move_head.offset()),
            final(self).head_position as int == old(self).head_position
                + transition.move_head.offset(),
            final(self).current_state == transition.next_state,
            final(self).machine == old(self).machine,
            final(self).inv(),
    {
        let ghost m0 = self.input@;
        let ghost h = self.head_position as int;
        proof {
            lemma_grow_bounds(m0, h);
        }
        *self.input.get(self.head_position) = transition.next_token;
        proof {
            lemma_write_at(m0, h, transition.next_token, h);
        }
        self.head_position = self.head_position + transition.move_head.head_offset();
        self.input.ensure_available(self.head_position);
        self.current_state = transition.next_state;
    }

    /// Reads the symbol under the head, scans the machine's rules for the
    /// first match on it and the current state, applies that rule if one was
    /// found, and reports whether the control state or the head position
    /// changed; with no matching rule, reports `false` and changes nothing
    /// beyond materializing the cell under the head. Step determinism: the
    /// resulting configuration and the report are a function of the machine
    /// and the prior configuration alone.
    pub fn exec_step(&mut self) -> (r: bool)
        requires
            old(self).can_step(),
        ensures
            final(self).config() == step(old(self).machine.transitions@, old(self).config()),
            r == step_changes(old(self).machine.transitions@, old(self).config()),
            final(self).machine == old(self).machine,
            final(self).inv(),
    {
        let ghost m0 = self.input@;
        let ghost h = self.head_position as int;
        proof {
            lemma_grow_bounds(m0, h);
            assert(m0.grow(h).wf());
        }
        let last_head_pos = self.head_position;
        let last_token = self.current_token();
        let last_state = self.current_state;
        let matching_transition = self.machine.find_transition(last_token, self.current_state);
        match matching_transition {
            Some(transition) => {
                proof {
                    lemma_grow_idempotent(m0, h);
                    assert(self.input@.write(h, transition.next_token) =~= m0.write(
                        h,
                        transition.next_token,
                    ));
                }
                self.apply_transition(&transition);
                proof {
                    assert(self.config() =~= step(self.machine.transitions@, (Config {
                        tape: m0,
                        head: h,
                        state: last_state,
                    })));
                }
                last_state != self.current_state || last_head_pos != self.head_position
            },
            None => {
                proof {
                    assert(self.config() =~= step(self.machine.transitions@, (Config {
                        tape: m0,
                        head: h,
                        state: last_state,
                    })));
                }
                false
            },
        }
    }

    /// Whether the next step surely stays within the machine limits of the
    /// index type, so that `exec_step` may be called.
    pub fn step_within_limits(&self) -> (r: bool)
        requires
            self.inv(),
        ensures
            r == self.can_step(),
    {
        let first = self.input.first_index();
        let last = self.input.last_index();
        let len: i64 = last - first + 1;
        let head = self.head_position;
        proof {
            lemma_grow_bounds(self.input@, head as int);
        }
        if head < first {
            if head == i64::MIN {
                false
            } else {
                first - head < i64::MAX - len
            }
        } else if head > last {
            if head == i64::MAX {
                false
            } else {
                head - last < i64::MAX - len
            }
        } else {
            len < i64::MAX
        }
    }

    /// Repeatedly steps, at most `fuel` times, until a step reports no
    /// change — the halt criterion — or until one more step would leave the
    /// machine limits of the index type. Reports whether the halt criterion
    /// was reached.
    pub fn run(&mut self, fuel: u64) -> (halted: bool)
        requires
            old(self).inv(),
        ensures
            final(self).config() == run_config(
                old(self).machine.transitions@,
                old(self).config(),
                fuel as nat,
            ),
            halted == run_halts(old(self).machine.transitions@, old(self).config(), fuel as nat),
            final(self).machine == old(self).machine,
            final(self).inv(),
    {
        let ghost mach = self.machine;
        let ghost c0 = self.config();
        let mut remaining: u64 = fuel;
        let mut halted: bool = false;
        loop
            invariant_except_break
                self.inv(),
                self.machine == mach,
                !halted,
                run_config(mach.transitions@, c0, fuel as nat) == run_config(
                    mach.transitions@,
                    self.config(),
                    remaining as nat,
                ),
                run_halts(mach.transitions@, c0, fuel as nat) == run_halts(
                    mach.transitions@,
                    self.config(),
                    remaining as nat,
                ),
            ensures
                self.inv(),
                self.machine == mach,
                self.config() == run_config(mach.transitions@, c0, fuel as nat),
                halted == run_halts(mach.transitions@, c0, fuel as nat),
            decreases remaining,
        {
            if remaining == 0 || !self.step_within_limits() {
                break;
            }
            let did_changed = self.exec_step();
            remaining = remaining - 1;
            if !did_changed {
                halted = true;
                break;
            }
        }
        halted
    }
}

} // verus!
