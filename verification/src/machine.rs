//! The value state machine.
//!
//! The remainder of a line after `=` (with leading whitespace already
//! skipped) is consumed one character at a time, left to right, with no
//! backtracking. The machine handles strong quotes (`'...'`, verbatim), weak
//! quotes (`"..."`, escapes and substitution stay active), backslash escapes,
//! `$NAME` and `${NAME}` substitution, and the rule that an unquoted value
//! ends at the first unquoted whitespace, after which only a `#` comment may
//! follow.
//!
//! [`vm_step`] is the transition relation, one character per step, with the
//! branches in the machine's priority order; [`vm_run`] folds it over the
//! input. The executable parser walks the same input and its state is, at
//! every index, the abstraction of the machine's.

use vstd::prelude::*;

use crate::chars::is_subst_char;
use crate::table::resolve;
use crate::table::resolve_chars;
use crate::table::Environment;
use crate::table::SubstitutionTable;

verus! {

/// Which substitution form, if any, the machine is inside.
#[derive(Clone, Copy, PartialEq, Eq, Debug)]
pub enum SubstMode {
    /// Not inside a substitution.
    Inactive,
    /// After an unescaped `$`, accumulating a bare alphanumeric name.
    Plain,
    /// Inside `${...}`, accumulating a name until the closing `}`.
    Braced,
}

/// The machine's state, abstractly: the mode flags, the substitution name
/// accumulated so far, and the output accumulated so far.
pub struct VmState {
    pub strong_quote: bool,
    pub weak_quote: bool,
    pub escaped: bool,
    pub expecting_end: bool,
    pub mode: SubstMode,
    pub name: Seq<char>,
    pub out: Seq<char>,
}

/// The state at the start of a value: no quotes, no escape, no substitution,
/// nothing accumulated.
pub open spec fn vm_init() -> VmState {
    VmState {
        strong_quote: false,
        weak_quote: false,
        escaped: false,
        expecting_end: false,
        mode: SubstMode::Inactive,
        name: Seq::empty(),
        out: Seq::empty(),
    }
}

/// What one character does to the machine.
pub enum VmStep {
    /// The character was consumed; the machine continues in this state.
    Next(VmState),
    /// A `#` after the value ended: the rest of the line is a comment and the
    /// machine finishes early.
    Stop,
    /// The character is illegal here; the value fails at its index.
    Reject,
}

/// How a whole value parse ends: the resolved value, or a failure at a
/// character index.
pub enum ValueOutcome {
    Done(Seq<char>),
    Fail(int),
}

/// The transition for one character `c`, with the branches in priority
/// order: expecting-end, escaped, strong quote, substitution accumulation,
/// `$`, weak quote, and the default handling of quotes, backslash,
/// whitespace and literal characters.
pub open spec fn vm_step(
    st: VmState,
    c: char,
    env: Map<Seq<char>, Seq<char>>,
    table: Map<Seq<char>, Option<Seq<char>>>,
) -> VmStep {
    if st.expecting_end {
        if c == ' ' || c == '\t' {
            VmStep::Next(st)
        } else if c == '#' {
            VmStep::Stop
        } else {
            VmStep::Reject
        }
    } else if st.escaped {
        if c == '\\' || c == '\'' || c == '"' || c == '$' || c == ' ' {
            VmStep::Next(VmState { escaped: false, out: st.out.push(c), ..st })
        } else if c == 'n' {
            VmStep::Next(VmState { escaped: false, out: st.out.push('\n'), ..st })
        } else {
            VmStep::Reject
        }
    } else if st.strong_quote {
        if c == '\'' {
            VmStep::Next(VmState { strong_quote: false, ..st })
        } else {
            VmStep::Next(VmState { out: st.out.push(c), ..st })
        }
    } else if !(st.mode is Inactive) {
        if is_subst_char(c) {
            VmStep::Next(VmState { name: st.name.push(c), ..st })
        } else if st.mode is Plain {
            if c == '{' && st.name.len() == 0 {
                VmStep::Next(VmState { mode: SubstMode::Braced, ..st })
            } else {
                let resolved_out = st.out + resolve(env, table, st.name);
                if c == '$' {
                    VmStep::Next(
                        VmState {
                            mode: if !st.strong_quote && !st.escaped {
                                SubstMode::Plain
                            } else {
                                SubstMode::Inactive
                            },
                            name: Seq::empty(),
                            out: resolved_out,
                            ..st
                        },
                    )
                } else {
                    VmStep::Next(
                        VmState {
                            mode: SubstMode::Inactive,
                            name: Seq::empty(),
                            out: resolved_out.push(c),
                            ..st
                        },
                    )
                }
            }
        } else {
            if c == '}' {
                VmStep::Next(
                    VmState {
                        mode: SubstMode::Inactive,
                        name: Seq::empty(),
                        out: st.out + resolve(env, table, st.name),
                        ..st
                    },
                )
            } else {
                VmStep::Next(VmState { name: st.name.push(c), ..st })
            }
        }
    } else if c == '$' {
        VmStep::Next(
            VmState {
                mode: if !st.strong_quote && !st.escaped {
                    SubstMode::Plain
                } else {
                    SubstMode::Inactive
                },
                ..st
            },
        )
    } else if st.weak_quote {
        if c == '"' {
            VmStep::Next(VmState { weak_quote: false, ..st })
        } else if c == '\\' {
            VmStep::Next(VmState { escaped: true, ..st })
        } else {
            VmStep::Next(VmState { out: st.out.push(c), ..st })
        }
    } else if c == '\'' {
        VmStep::Next(VmState { strong_quote: true, ..st })
    } else if c == '"' {
        VmStep::Next(VmState { weak_quote: true, ..st })
    } else if c == '\\' {
        VmStep::Next(VmState { escaped: true, ..st })
    } else if c == ' ' || c == '\t' {
        VmStep::Next(VmState { expecting_end: true, ..st })
    } else {
        VmStep::Next(VmState { out: st.out.push(c), ..st })
    }
}

/// The end of the input (or a trailing comment): an unterminated `${`,
/// strong quote or weak quote fails at the last character index; otherwise
/// any pending bare substitution name is resolved and appended.
pub open spec fn vm_finish(
    input: Seq<char>,
    st: VmState,
    env: Map<Seq<char>, Seq<char>>,
    table: Map<Seq<char>, Option<Seq<char>>>,
) -> ValueOutcome {
    if st.mode is Braced || st.strong_quote || st.weak_quote {
        ValueOutcome::Fail(
            if input.len() == 0 {
                0
            } else {
                input.len() - 1
            },
        )
    } else {
        ValueOutcome::Done(st.out + resolve(env, table, st.name))
    }
}

/// The machine run over `input` from index `i` in state `st`.
pub open spec fn vm_run(
    input: Seq<char>,
    i: int,
    st: VmState,
    env: Map<Seq<char>, Seq<char>>,
    table: Map<Seq<char>, Option<Seq<char>>>,
) -> ValueOutcome
    decreases input.len() - i,
{
    if !(0 <= i < input.len()) {
        vm_finish(input, st, env, table)
    } else {
        match vm_step(st, input[i], env, table) {
            VmStep::Next(st2) => vm_run(input, i + 1, st2, env, table),
            VmStep::Stop => vm_finish(input, st, env, table),
            VmStep::Reject => ValueOutcome::Fail(i),
        }
    }
}

/// A failing run always points inside the input (or at 0 for an empty
/// input): the index can stand, translated, in a whole-line error.
pub proof fn lemma_vm_fail_in_range(
    input: Seq<char>,
    i: int,
    st: VmState,
    env: Map<Seq<char>, Seq<char>>,
    table: Map<Seq<char>, Option<Seq<char>>>,
)
    requires
        0 <= i <= input.len(),
    ensures
        (match vm_run(input, i, st, env, table) {
            ValueOutcome::Fail(idx) => 0 <= idx && (if input.len() == 0 {
                idx == 0
            } else {
                idx < input.len()
            }),
            ValueOutcome::Done(_) => true,
        }),
    decreases input.len() - i,
{
    if 0 <= i < input.len() {
        match vm_step(st, input[i], env, table) {
            VmStep::Next(st2) => {
                lemma_vm_fail_in_range(input, i + 1, st2, env, table);
            },
            VmStep::Stop => {},
            VmStep::Reject => {},
        }
    }
}

/// The outcome of the whole value `input`, resolved against `env` and
/// `table`.
pub open spec fn parse_value_spec(
    input: Seq<char>,
    env: Map<Seq<char>, Seq<char>>,
    table: Map<Seq<char>, Option<Seq<char>>>,
) -> ValueOutcome {
    vm_run(input, 0, vm_init(), env, table)
}

/// The executable machine state: quote, escape and end flags, the current
/// substitution mode, the substitution name accumulated so far, and the
/// output accumulated so far.
pub struct ValueState {
    strong_quote: bool,
    weak_quote: bool,
    escaped: bool,
    expecting_end: bool,
    substitution_mode: SubstMode,
    substitution_name: Vec<char>,
    output: Vec<char>,
}

impl View for ValueState {
    type V = VmState;

    closed spec fn view(&self) -> VmState {
        VmState {
            strong_quote: self.strong_quote,
            weak_quote: self.weak_quote,
            escaped: self.escaped,
            expecting_end: self.expecting_end,
            mode: self.substitution_mode,
            name: self.substitution_name@,
            out: self.output@,
        }
    }
}

impl ValueState {
    /// A machine about to read the first character of a value.
    pub fn new() -> (r: ValueState)
        ensures
            r@ == vm_init(),
    {
        let r = ValueState {
            strong_quote: false,
            weak_quote: false,
            escaped: false,
            expecting_end: false,
            substitution_mode: SubstMode::Inactive,
            substitution_name: Vec::new(),
            output: Vec::new(),
        };
        proof {
            assert(r@.name =~= vm_init().name);
            assert(r@.out =~= vm_init().out);
        }
        r
    }

    /// Append one character to the output.
    pub fn append(&mut self, c: char)
        ensures
            final(self)@ == (VmState { out: old(self)@.out.push(c), ..old(self)@ }),
    {
        self.output.push(c);
    }

    /// The output accumulated so far, as a string.
    pub fn output(&self) -> (r: String)
        ensures
            r@ == self@.out,
    {
        let r = crate::chars::chars_to_string(&self.output, 0, self.output.len());
        proof {
            assert(self.output@.subrange(0, self.output@.len() as int) =~= self.output@);
        }
        r
    }

    /// Resolve the pending substitution name, append the result to the
    /// output, and clear the name.
    fn flush_name(&mut self, table: &SubstitutionTable, env: &Environment)
        requires
            table.wf(),
            env.wf(),
        ensures
            final(self)@ == (VmState {
                name: Seq::empty(),
                out: old(self)@.out + resolve(env@, table@, old(self)@.name),
                ..old(self)@
            }),
    {
        let ghost pre = *self;
        let resolved = resolve_chars(&self.substitution_name, table, env);
        let n = resolved.len();
        let mut i: usize = 0;
        while i < n
            invariant
                i <= n,
                n == resolved@.len(),
                self.strong_quote == pre.strong_quote,
                self.weak_quote == pre.weak_quote,
                self.escaped == pre.escaped,
                self.expecting_end == pre.expecting_end,
                self.substitution_mode == pre.substitution_mode,
                self.substitution_name == pre.substitution_name,
                self.output@ == pre.output@ + resolved@.take(i as int),
            decreases n - i,
        {
            let c = resolved[i];
            self.output.push(c);
            i = i + 1;
            proof {
                assert(self.output@ =~= pre.output@ + resolved@.take(i as int));
            }
        }
        self.substitution_name = Vec::new();
        proof {
            assert(resolved@.take(n as int) =~= resolved@);
            assert(self@.name =~= Seq::<char>::empty());
        }
    }
}

/// Run the machine over the whole value `input`, resolving substitutions
/// against `table` and `env`. Returns the resolved value, or the character
/// index at which the value is illegal.
pub(crate) fn parse_value_chars(
    input: &Vec<char>,
    table: &SubstitutionTable,
    env: &Environment,
) -> (r: Result<Vec<char>, usize>)
    requires
        table.wf(),
        env.wf(),
    ensures
        match parse_value_spec(input@, env@, table@) {
            ValueOutcome::Done(out) => r is Ok && r->Ok_0@ == out,
            ValueOutcome::Fail(idx) => r is Err && r->Err_0 as int == idx,
        },
{
    let ghost env_m = env@;
    let ghost table_m = table@;
    let n = input.len();
    let mut st = ValueState::new();
    let mut idx: usize = 0;
    let mut done = false;
    while idx < n && !done
        invariant
            idx <= n,
            n == input@.len(),
            table.wf(),
            env.wf(),
            env_m == env@,
            table_m == table@,
            !done ==> parse_value_spec(input@, env_m, table_m) == vm_run(
                input@,
                idx as int,
                st@,
                env_m,
                table_m,
            ),
            done ==> parse_value_spec(input@, env_m, table_m) == vm_finish(
                input@,
                st@,
                env_m,
                table_m,
            ),
        decreases n - idx, 1int - (if done { 1int } else { 0int }),
    {
        let ghost pre = st@;
        let c = input[idx];
        if st.expecting_end {
            if c == ' ' || c == '\t' {
                // spaces after the value's end are ignored
            } else if c == '#' {
                done = true;
            } else {
                proof {
                    assert(vm_step(pre, c, env_m, table_m) is Reject);
                }
                return Err(idx);
            }
        } else if st.escaped {
            if c == '\\' || c == '\'' || c == '"' || c == '$' || c == ' ' {
                st.append(c);
                st.escaped = false;
            } else if c == 'n' {
                st.append('\n');
                st.escaped = false;
            } else {
                proof {
                    assert(vm_step(pre, c, env_m, table_m) is Reject);
                }
                return Err(idx);
            }
        } else if st.strong_quote {
            if c == '\'' {
                st.strong_quote = false;
            } else {
                st.append(c);
            }
        } else if !matches!(st.substitution_mode, SubstMode::Inactive) {
            if crate::chars::char_is_subst(c) {
                st.substitution_name.push(c);
            } else if matches!(st.substitution_mode, SubstMode::Plain) {
                if c == '{' && st.substitution_name.len() == 0 {
                    st.substitution_mode = SubstMode::Braced;
                } else {
                    st.flush_name(table, env);
                    if c == '$' {
                        st.substitution_mode = if !st.strong_quote && !st.escaped {
                            SubstMode::Plain
                        } else {
                            SubstMode::Inactive
                        };
                    } else {
                        st.substitution_mode = SubstMode::Inactive;
                        st.append(c);
                    }
                }
            } else {
                if c == '}' {
                    st.substitution_mode = SubstMode::Inactive;
                    st.flush_name(table, env);
                } else {
                    st.substitution_name.push(c);
                }
            }
        } else if c == '$' {
            st.substitution_mode = if !st.strong_quote && !st.escaped {
                SubstMode::Plain
            } else {
                SubstMode::Inactive
            };
        } else if st.weak_quote {
            if c == '"' {
                st.weak_quote = false;
            } else if c == '\\' {
                st.escaped = true;
            } else {
                st.append(c);
            }
        } else if c == '\'' {
            st.strong_quote = true;
        } else if c == '"' {
            st.weak_quote = true;
        } else if c == '\\' {
            st.escaped = true;
        } else if c == ' ' || c == '\t' {
            st.expecting_end = true;
        } else {
            st.append(c);
        }
        proof {
            if !done {
                assert(vm_step(pre, c, env_m, table_m) == VmStep::Next(st@));
            } else {
                assert(vm_step(pre, c, env_m, table_m) is Stop);
            }
        }
        if !done {
            idx = idx + 1;
        }
    }
    proof {
        assert(parse_value_spec(input@, env_m, table_m) == vm_finish(input@, st@, env_m, table_m));
    }
    if matches!(st.substitution_mode, SubstMode::Braced) || st.strong_quote || st.weak_quote {
        if n == 0 {
            Err(0)
        } else {
            Err(n - 1)
        }
    } else {
        st.flush_name(table, env);
        Ok(st.output)
    }
}

} // verus!
