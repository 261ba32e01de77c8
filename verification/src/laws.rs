//! General properties of the parser, stated over the specification model
//! and proved once for all inputs.
//!
//! Each public proof function here is a law of the library: a statement
//! about whole families of lines, not about one example. The executable
//! parser is tied to the same model by the contracts of
//! [`crate::parse::parse_line`] and the value state machine, so these laws
//! carry over to every run of the code.

use vstd::prelude::*;

use crate::chars::is_key_char;
use crate::chars::is_key_start;
use crate::chars::is_space_char;
use crate::chars::is_subst_char;
use crate::machine::parse_value_spec;
use crate::machine::vm_finish;
use crate::machine::vm_init;
use crate::machine::vm_run;
use crate::machine::vm_step;
use crate::machine::SubstMode;
use crate::machine::ValueOutcome;
use crate::machine::VmState;
use crate::machine::VmStep;
use crate::parse::after_equal_spec;
use crate::parse::lemma_key_end;
use crate::parse::lemma_rtrim;
use crate::parse::lemma_skip_ws;
use crate::parse::parse_line_spec;
use crate::parse::rtrim_len;
use crate::parse::skip_ws_from;
use crate::parse::LineOutcome;
use crate::table::resolve;

verus! {

/// A key as the grammar admits it: nonempty, starting with an ASCII letter
/// or underscore, continuing with ASCII alphanumerics, underscores and dots.
pub open spec fn valid_key(key: Seq<char>) -> bool {
    &&& key.len() > 0
    &&& is_key_start(key[0])
    &&& forall|i: int| 0 <= i < key.len() ==> is_key_char(key[i])
}

/// A value character with no role in the grammar: not a quote, not a
/// backslash, not a dollar, not whitespace. Such characters pass through
/// the value state machine verbatim.
pub open spec fn plain_value_char(c: char) -> bool {
    &&& c != '\''
    &&& c != '"'
    &&& c != '\\'
    &&& c != '$'
    &&& !is_space_char(c)
}

/// Neither map knows the empty name. The well-formedness of
/// [`crate::table::SubstitutionTable`] and [`crate::table::Environment`]
/// guarantees this of every value the executable parser is handed.
pub open spec fn no_empty_name(
    env: Map<Seq<char>, Seq<char>>,
    table: Map<Seq<char>, Option<Seq<char>>>,
) -> bool {
    &&& !env.contains_key(Seq::empty())
    &&& !table.contains_key(Seq::empty())
}

/// A machine state outside every quote, escape and substitution, with no
/// pending name: the state a plain character is consumed in.
pub open spec fn inactive_ready(st: VmState) -> bool {
    &&& !st.strong_quote
    &&& !st.weak_quote
    &&& !st.escaped
    &&& !st.expecting_end
    &&& st.mode is Inactive
    &&& st.name == Seq::<char>::empty()
}

/// From an inactive state, plain characters up to the end of the input are
/// appended verbatim and the machine finishes with them.
proof fn lemma_vm_plain_to_end(
    input: Seq<char>,
    i: int,
    st: VmState,
    env: Map<Seq<char>, Seq<char>>,
    table: Map<Seq<char>, Option<Seq<char>>>,
)
    requires
        0 <= i <= input.len(),
        inactive_ready(st),
        forall|k: int| i <= k < input.len() ==> plain_value_char(input[k]),
        no_empty_name(env, table),
    ensures
        vm_run(input, i, st, env, table) == ValueOutcome::Done(
            st.out + input.subrange(i, input.len() as int),
        ),
    decreases input.len() - i,
{
    if i == input.len() {
        assert(st.out + input.subrange(i, input.len() as int) =~= st.out);
    } else {
        let c = input[i];
        assert(c != ' ' && c != '\t');
        let st2 = VmState { out: st.out.push(c), ..st };
        assert(vm_step(st, c, env, table) == VmStep::Next(st2));
        lemma_vm_plain_to_end(input, i + 1, st2, env, table);
        assert(st2.out + input.subrange(i + 1, input.len() as int) =~= st.out + input.subrange(
            i,
            input.len() as int,
        ));
    }
}

/// Inside strong quotes, characters other than `'` are copied verbatim.
proof fn lemma_vm_copy_strong(
    input: Seq<char>,
    i: int,
    j: int,
    st: VmState,
    env: Map<Seq<char>, Seq<char>>,
    table: Map<Seq<char>, Option<Seq<char>>>,
)
    requires
        0 <= i <= j <= input.len(),
        st.strong_quote,
        !st.escaped,
        !st.expecting_end,
        forall|k: int| i <= k < j ==> input[k] != '\'',
    ensures
        vm_run(input, i, st, env, table) == vm_run(
            input,
            j,
            VmState { out: st.out + input.subrange(i, j), ..st },
            env,
            table,
        ),
    decreases j - i,
{
    if i == j {
        assert(st.out + input.subrange(i, j) =~= st.out);
        assert((VmState { out: st.out + input.subrange(i, j), ..st }) == st);
    } else {
        let c = input[i];
        let st2 = VmState { out: st.out.push(c), ..st };
        assert(vm_step(st, c, env, table) == VmStep::Next(st2));
        lemma_vm_copy_strong(input, i + 1, j, st2, env, table);
        assert(st2.out + input.subrange(i + 1, j) =~= st.out + input.subrange(i, j));
    }
}

/// Inside weak quotes, outside any substitution, characters other than `"`,
/// `\` and `$` are copied verbatim.
proof fn lemma_vm_copy_weak(
    input: Seq<char>,
    i: int,
    j: int,
    st: VmState,
    env: Map<Seq<char>, Seq<char>>,
    table: Map<Seq<char>, Option<Seq<char>>>,
)
    requires
        0 <= i <= j <= input.len(),
        st.weak_quote,
        !st.strong_quote,
        !st.escaped,
        !st.expecting_end,
        st.mode is Inactive,
        forall|k: int| i <= k < j ==> input[k] != '"' && input[k] != '\\' && input[k] != '$',
    ensures
        vm_run(input, i, st, env, table) == vm_run(
            input,
            j,
            VmState { out: st.out + input.subrange(i, j), ..st },
            env,
            table,
        ),
    decreases j - i,
{
    if i == j {
        assert(st.out + input.subrange(i, j) =~= st.out);
        assert((VmState { out: st.out + input.subrange(i, j), ..st }) == st);
    } else {
        let c = input[i];
        let st2 = VmState { out: st.out.push(c), ..st };
        assert(vm_step(st, c, env, table) == VmStep::Next(st2));
        lemma_vm_copy_weak(input, i + 1, j, st2, env, table);
        assert(st2.out + input.subrange(i + 1, j) =~= st.out + input.subrange(i, j));
    }
}

/// After a bare `$`, alphanumeric characters accumulate into the
/// substitution name.
proof fn lemma_vm_accum_plain(
    input: Seq<char>,
    i: int,
    j: int,
    st: VmState,
    env: Map<Seq<char>, Seq<char>>,
    table: Map<Seq<char>, Option<Seq<char>>>,
)
    requires
        0 <= i <= j <= input.len(),
        st.mode is Plain,
        !st.strong_quote,
        !st.escaped,
        !st.expecting_end,
        forall|k: int| i <= k < j ==> is_subst_char(input[k]),
    ensures
        vm_run(input, i, st, env, table) == vm_run(
            input,
            j,
            VmState { name: st.name + input.subrange(i, j), ..st },
            env,
            table,
        ),
    decreases j - i,
{
    if i == j {
        assert(st.name + input.subrange(i, j) =~= st.name);
        assert((VmState { name: st.name + input.subrange(i, j), ..st }) == st);
    } else {
        let c = input[i];
        let st2 = VmState { name: st.name.push(c), ..st };
        assert(vm_step(st, c, env, table) == VmStep::Next(st2));
        lemma_vm_accum_plain(input, i + 1, j, st2, env, table);
        assert(st2.name + input.subrange(i + 1, j) =~= st.name + input.subrange(i, j));
    }
}

/// Inside `${...}`, characters other than `}` accumulate into the
/// substitution name.
proof fn lemma_vm_accum_braced(
    input: Seq<char>,
    i: int,
    j: int,
    st: VmState,
    env: Map<Seq<char>, Seq<char>>,
    table: Map<Seq<char>, Option<Seq<char>>>,
)
    requires
        0 <= i <= j <= input.len(),
        st.mode is Braced,
        !st.strong_quote,
        !st.escaped,
        !st.expecting_end,
        forall|k: int| i <= k < j ==> input[k] != '}',
    ensures
        vm_run(input, i, st, env, table) == vm_run(
            input,
            j,
            VmState { name: st.name + input.subrange(i, j), ..st },
            env,
            table,
        ),
    decreases j - i,
{
    if i == j {
        assert(st.name + input.subrange(i, j) =~= st.name);
        assert((VmState { name: st.name + input.subrange(i, j), ..st }) == st);
    } else {
        let c = input[i];
        let st2 = VmState { name: st.name.push(c), ..st };
        assert(vm_step(st, c, env, table) == VmStep::Next(st2));
        lemma_vm_accum_braced(input, i + 1, j, st2, env, table);
        assert(st2.name + input.subrange(i + 1, j) =~= st.name + input.subrange(i, j));
    }
}

/// Once the value has ended, spaces and tabs are ignored.
proof fn lemma_vm_skip_expecting(
    input: Seq<char>,
    i: int,
    j: int,
    st: VmState,
    env: Map<Seq<char>, Seq<char>>,
    table: Map<Seq<char>, Option<Seq<char>>>,
)
    requires
        0 <= i <= j <= input.len(),
        st.expecting_end,
        forall|k: int| i <= k < j ==> input[k] == ' ' || input[k] == '\t',
    ensures
        vm_run(input, i, st, env, table) == vm_run(input, j, st, env, table),
    decreases j - i,
{
    if i < j {
        assert(vm_step(st, input[i], env, table) == VmStep::Next(st));
        lemma_vm_skip_expecting(input, i + 1, j, st, env, table);
    }
}

/// Trimming never lengthens the line.
proof fn lemma_rtrim_bounds(s: Seq<char>)
    ensures
        0 <= rtrim_len(s) <= s.len(),
    decreases s.len(),
{
    if s.len() > 0 && is_space_char(s.last()) {
        lemma_rtrim_bounds(s.drop_last());
    }
}

/// A character at a position keeps the line's trimmed length beyond it.
proof fn lemma_rtrim_keeps(s: Seq<char>, k: int)
    requires
        0 <= k < s.len(),
        !is_space_char(s[k]),
    ensures
        rtrim_len(s) > k,
    decreases s.len(),
{
    if is_space_char(s.last()) {
        assert(k < s.len() - 1);
        lemma_rtrim_keeps(s.drop_last(), k);
    }
}




/// A line of the shape `key=value` — with a valid key, a value that starts
/// with neither whitespace nor `#`, and no trailing whitespace — parses
/// exactly as the value state machine parses `value`.
proof fn lemma_line_decomposes(
    key: Seq<char>,
    value: Seq<char>,
    env: Map<Seq<char>, Seq<char>>,
    table: Map<Seq<char>, Option<Seq<char>>>,
)
    requires
        valid_key(key),
        value.len() > 0,
        !is_space_char(value[0]),
        value[0] != '#',
        !is_space_char(value.last()),
    ensures
        parse_line_spec(key + seq!['='] + value, env, table) == (match parse_value_spec(
            value,
            env,
            table,
        ) {
            ValueOutcome::Done(out) => LineOutcome::Parsed { key, entry: Option::Some(out) },
            ValueOutcome::Fail(idx) => LineOutcome::Rejected {
                text: key + seq!['='] + value,
                idx: key.len() + 1 + idx,
            },
        }),
{
    let line = key + seq!['='] + value;
    let kl = key.len() as int;
    let n = line.len() as int;
    assert(line[n - 1] == value.last());
    lemma_rtrim(line, line.len() as int);
    let t = line.take(rtrim_len(line));
    assert(t =~= line);
    assert(forall|k: int| 0 <= k < kl ==> t[k] == key[k]);
    assert(t[kl] == '=');
    assert(forall|k: int| 0 <= k < value.len() ==> t[kl + 1 + k] == value[k]);
    lemma_skip_ws(t, 0, 0);
    lemma_key_end(t, 0, kl);
    assert(t.subrange(0, kl) =~= key);
    lemma_skip_ws(t, kl, kl);
    assert(skip_ws_from(t, kl) == kl && t[kl] == '=');
    lemma_skip_ws(t, kl + 1, kl + 1);
    assert(t[kl + 1] == value[0]);
    assert(t.subrange(kl + 1, t.len() as int) =~= value);
    assert(after_equal_spec(t, key, kl + 1, env, table) == (match parse_value_spec(
        value,
        env,
        table,
    ) {
        ValueOutcome::Done(out) => LineOutcome::Parsed { key, entry: Option::Some(out) },
        ValueOutcome::Fail(idx) => LineOutcome::Rejected { text: line, idx: kl + 1 + idx },
    }));
}

/// From an inactive state, plain characters are copied verbatim and leave
/// the state otherwise unchanged.
proof fn lemma_vm_copy_plain(
    input: Seq<char>,
    i: int,
    j: int,
    st: VmState,
    env: Map<Seq<char>, Seq<char>>,
    table: Map<Seq<char>, Option<Seq<char>>>,
)
    requires
        0 <= i <= j <= input.len(),
        !st.strong_quote,
        !st.weak_quote,
        !st.escaped,
        !st.expecting_end,
        st.mode is Inactive,
        forall|k: int| i <= k < j ==> plain_value_char(input[k]),
    ensures
        vm_run(input, i, st, env, table) == vm_run(
            input,
            j,
            VmState { out: st.out + input.subrange(i, j), ..st },
            env,
            table,
        ),
    decreases j - i,
{
    if i == j {
        assert(st.out + input.subrange(i, j) =~= st.out);
        assert((VmState { out: st.out + input.subrange(i, j), ..st }) == st);
    } else {
        let c = input[i];
        assert(c != ' ' && c != '\t');
        let st2 = VmState { out: st.out.push(c), ..st };
        assert(vm_step(st, c, env, table) == VmStep::Next(st2));
        lemma_vm_copy_plain(input, i + 1, j, st2, env, table);
        assert(st2.out + input.subrange(i + 1, j) =~= st.out + input.subrange(i, j));
    }
}


/// For every valid `KEY=value` line whose value holds no character with a
/// role in the grammar, the parse yields the pair `(KEY, value)` exactly,
/// and records it.
pub proof fn lemma_plain_line(
    key: Seq<char>,
    value: Seq<char>,
    env: Map<Seq<char>, Seq<char>>,
    table: Map<Seq<char>, Option<Seq<char>>>,
)
    requires
        valid_key(key),
        value.len() > 0,
        forall|i: int| 0 <= i < value.len() ==> plain_value_char(value[i]),
        value[0] != '#',
        no_empty_name(env, table),
    ensures
        parse_line_spec(key + seq!['='] + value, env, table) == (LineOutcome::Parsed {
            key,
            entry: Option::Some(value),
        }),
{
    lemma_line_decomposes(key, value, env, table);
    lemma_vm_plain_to_end(value, 0, vm_init(), env, table);
    assert(vm_init().out + value.subrange(0, value.len() as int) =~= value);
}

/// Strong quotes are literal: `KEY='lit'` yields `lit` unchanged — no
/// substitution, no escape processing — whatever the table and the
/// environment hold.
pub proof fn lemma_strong_quote_literal(
    key: Seq<char>,
    lit: Seq<char>,
    env: Map<Seq<char>, Seq<char>>,
    table: Map<Seq<char>, Option<Seq<char>>>,
)
    requires
        valid_key(key),
        forall|i: int| 0 <= i < lit.len() ==> lit[i] != '\'',
        no_empty_name(env, table),
    ensures
        parse_line_spec(key + seq!['='] + (seq!['\''] + lit + seq!['\'']), env, table) == (
        LineOutcome::Parsed { key, entry: Option::Some(lit) }),
{
    let value = seq!['\''] + lit + seq!['\''];
    let n = value.len() as int;
    assert(value[0] == '\'' && value[n - 1] == '\'');
    lemma_line_decomposes(key, value, env, table);
    let st0 = vm_init();
    let st1 = VmState { strong_quote: true, ..st0 };
    assert(vm_step(st0, '\'', env, table) == VmStep::Next(st1));
    assert(vm_run(value, 0, st0, env, table) == vm_run(value, 1, st1, env, table));
    assert(forall|k: int| 0 <= k < lit.len() ==> value[1 + k] == lit[k]);
    lemma_vm_copy_strong(value, 1, n - 1, st1, env, table);
    let st2 = VmState { out: st1.out + value.subrange(1, n - 1), ..st1 };
    assert(st2.out =~= lit);
    let st3 = VmState { strong_quote: false, ..st2 };
    assert(vm_step(st2, value[n - 1], env, table) == VmStep::Next(st3));
    assert(vm_run(value, n - 1, st2, env, table) == vm_run(value, n, st3, env, table));
    assert(vm_run(value, n, st3, env, table) == vm_finish(value, st3, env, table));
    assert(st3.out + resolve(env, table, st3.name) =~= lit);
}

/// The environment takes precedence: a name the environment knows resolves
/// to the environment's value, whatever the table holds for it.
pub proof fn lemma_env_precedence(
    env: Map<Seq<char>, Seq<char>>,
    table: Map<Seq<char>, Option<Seq<char>>>,
    name: Seq<char>,
)
    requires
        env.contains_key(name),
    ensures
        resolve(env, table, name) == env[name],
{
}

/// An undefined substitution expands to nothing: a name that neither the
/// environment nor the table maps to a value resolves to the empty string —
/// never to an error.
pub proof fn lemma_undefined_resolves_empty(
    env: Map<Seq<char>, Seq<char>>,
    table: Map<Seq<char>, Option<Seq<char>>>,
    name: Seq<char>,
)
    requires
        !env.contains_key(name),
        !table.contains_key(name) || table[name] is None,
    ensures
        resolve(env, table, name) == Seq::<char>::empty(),
{
}

/// A bare `KEY=$NAME` line always succeeds, whatever the two maps hold: its
/// value is whatever the name resolves to, possibly the empty string.
pub proof fn lemma_bare_subst_line(
    key: Seq<char>,
    name: Seq<char>,
    env: Map<Seq<char>, Seq<char>>,
    table: Map<Seq<char>, Option<Seq<char>>>,
)
    requires
        valid_key(key),
        forall|i: int| 0 <= i < name.len() ==> is_subst_char(name[i]) && !is_space_char(name[i]),
        no_empty_name(env, table),
    ensures
        parse_line_spec(key + seq!['='] + (seq!['$'] + name), env, table) == (LineOutcome::Parsed {
            key,
            entry: Option::Some(resolve(env, table, name)),
        }),
{
    let value = seq!['$'] + name;
    let n = value.len() as int;
    assert(value[0] == '$');
    lemma_line_decomposes(key, value, env, table);
    let st0 = vm_init();
    let st1 = VmState { mode: SubstMode::Plain, ..st0 };
    assert(vm_step(st0, '$', env, table) == VmStep::Next(st1));
    assert(vm_run(value, 0, st0, env, table) == vm_run(value, 1, st1, env, table));
    assert(forall|k: int| 0 <= k < name.len() ==> value[1 + k] == name[k]);
    lemma_vm_accum_plain(value, 1, n, st1, env, table);
    let st2 = VmState { name: st1.name + value.subrange(1, n), ..st1 };
    assert(st2.name =~= name);
    assert(vm_run(value, n, st2, env, table) == vm_finish(value, st2, env, table));
    assert(st2.out + resolve(env, table, name) =~= resolve(env, table, name));
}

/// Environment precedence on a whole line: when the environment knows the
/// name, `KEY=$NAME` takes the environment's value, whatever the table says.
pub proof fn lemma_env_precedence_line(
    key: Seq<char>,
    name: Seq<char>,
    env: Map<Seq<char>, Seq<char>>,
    table: Map<Seq<char>, Option<Seq<char>>>,
)
    requires
        valid_key(key),
        forall|i: int| 0 <= i < name.len() ==> is_subst_char(name[i]) && !is_space_char(name[i]),
        env.contains_key(name),
        no_empty_name(env, table),
    ensures
        parse_line_spec(key + seq!['='] + (seq!['$'] + name), env, table) == (LineOutcome::Parsed {
            key,
            entry: Option::Some(env[name]),
        }),
{
    lemma_bare_subst_line(key, name, env, table);
}

/// `export` before a key is transparent: `export KEY=value` parses exactly
/// as `KEY=value` does.
#[verifier::rlimit(100)]
pub proof fn lemma_export_prefix(
    key: Seq<char>,
    value: Seq<char>,
    env: Map<Seq<char>, Seq<char>>,
    table: Map<Seq<char>, Option<Seq<char>>>,
)
    requires
        valid_key(key),
        value.len() > 0,
        !is_space_char(value[0]),
        value[0] != '#',
        !is_space_char(value.last()),
    ensures
        parse_line_spec("export "@ + key + seq!['='] + value, env, table) == (
        match parse_value_spec(value, env, table) {
            ValueOutcome::Done(out) => LineOutcome::Parsed { key, entry: Option::Some(out) },
            ValueOutcome::Fail(idx) => LineOutcome::Rejected {
                text: "export "@ + key + seq!['='] + value,
                idx: 8 + key.len() + idx,
            },
        }),
{
    reveal_strlit("export ");
    reveal_strlit("export");
    let line = "export "@ + key + seq!['='] + value;
    let kl = key.len() as int;
    let n = line.len() as int;
    assert(line[n - 1] == value.last());
    lemma_rtrim(line, line.len() as int);
    let t = line.take(rtrim_len(line));
    assert(t =~= line);
    assert(t[0] == 'e' && t[1] == 'x' && t[2] == 'p' && t[3] == 'o' && t[4] == 'r' && t[5] == 't'
        && t[6] == ' ');
    assert(forall|k: int| 0 <= k < kl ==> t[7 + k] == key[k]);
    assert(t[7 + kl] == '=');
    assert(forall|k: int| 0 <= k < value.len() ==> t[7 + kl + 1 + k] == value[k]);
    lemma_skip_ws(t, 0, 0);
    lemma_key_end(t, 0, 6);
    assert(t.subrange(0, 6) =~= "export"@);
    lemma_skip_ws(t, 6, 7);
    assert(!(t[7] == '='));
    assert(is_key_start(t[7]));
    lemma_key_end(t, 7, 7 + kl);
    assert(t.subrange(7, 7 + kl) =~= key);
    lemma_skip_ws(t, 7 + kl, 7 + kl);
    assert(t[7 + kl] == '=');
    lemma_skip_ws(t, 7 + kl + 1, 7 + kl + 1);
    assert(t[7 + kl + 1] == value[0]);
    assert(t.subrange(7 + kl + 1, t.len() as int) =~= value);
}

/// An unterminated strong quote fails, and the error points at the line's
/// final character index.
pub proof fn lemma_unterminated_strong(
    key: Seq<char>,
    lit: Seq<char>,
    env: Map<Seq<char>, Seq<char>>,
    table: Map<Seq<char>, Option<Seq<char>>>,
)
    requires
        valid_key(key),
        forall|i: int| 0 <= i < lit.len() ==> lit[i] != '\'',
        lit.len() == 0 || !is_space_char(lit.last()),
    ensures
        parse_line_spec(key + seq!['='] + (seq!['\''] + lit), env, table) == (
        LineOutcome::Rejected {
            text: key + seq!['='] + (seq!['\''] + lit),
            idx: key.len() as int + 1 + lit.len() as int,
        }),
{
    let value = seq!['\''] + lit;
    let n = value.len() as int;
    assert(value[0] == '\'');
    assert(value.last() == (if lit.len() == 0 { '\'' } else { lit.last() }));
    lemma_line_decomposes(key, value, env, table);
    let st0 = vm_init();
    let st1 = VmState { strong_quote: true, ..st0 };
    assert(vm_step(st0, '\'', env, table) == VmStep::Next(st1));
    assert(forall|k: int| 0 <= k < lit.len() ==> value[1 + k] == lit[k]);
    lemma_vm_copy_strong(value, 1, n, st1, env, table);
    let st2 = VmState { out: st1.out + value.subrange(1, n), ..st1 };
    assert(vm_run(value, n, st2, env, table) == vm_finish(value, st2, env, table));
    assert(vm_finish(value, st2, env, table) == ValueOutcome::Fail(n - 1));
}

/// An unterminated weak quote fails, and the error points at the line's
/// final character index.
pub proof fn lemma_unterminated_weak(
    key: Seq<char>,
    lit: Seq<char>,
    env: Map<Seq<char>, Seq<char>>,
    table: Map<Seq<char>, Option<Seq<char>>>,
)
    requires
        valid_key(key),
        forall|i: int| 0 <= i < lit.len() ==> lit[i] != '"' && lit[i] != '\\' && lit[i] != '$',
        lit.len() == 0 || !is_space_char(lit.last()),
    ensures
        parse_line_spec(key + seq!['='] + (seq!['"'] + lit), env, table) == (
        LineOutcome::Rejected {
            text: key + seq!['='] + (seq!['"'] + lit),
            idx: key.len() as int + 1 + lit.len() as int,
        }),
{
    let value = seq!['"'] + lit;
    let n = value.len() as int;
    assert(value[0] == '"');
    assert(value.last() == (if lit.len() == 0 { '"' } else { lit.last() }));
    lemma_line_decomposes(key, value, env, table);
    let st0 = vm_init();
    let st1 = VmState { weak_quote: true, ..st0 };
    assert(vm_step(st0, '"', env, table) == VmStep::Next(st1));
    assert(forall|k: int| 0 <= k < lit.len() ==> value[1 + k] == lit[k]);
    lemma_vm_copy_weak(value, 1, n, st1, env, table);
    let st2 = VmState { out: st1.out + value.subrange(1, n), ..st1 };
    assert(vm_run(value, n, st2, env, table) == vm_finish(value, st2, env, table));
    assert(vm_finish(value, st2, env, table) == ValueOutcome::Fail(n - 1));
}

/// An unterminated `${` fails, and the error points at the line's final
/// character index: the missing `}`.
pub proof fn lemma_unterminated_braced(
    key: Seq<char>,
    name: Seq<char>,
    env: Map<Seq<char>, Seq<char>>,
    table: Map<Seq<char>, Option<Seq<char>>>,
)
    requires
        valid_key(key),
        forall|i: int| 0 <= i < name.len() ==> name[i] != '}',
        name.len() == 0 || !is_space_char(name.last()),
    ensures
        parse_line_spec(key + seq!['='] + (seq!['$', '{'] + name), env, table) == (
        LineOutcome::Rejected {
            text: key + seq!['='] + (seq!['$', '{'] + name),
            idx: key.len() as int + 2 + name.len() as int,
        }),
{
    let value = seq!['$', '{'] + name;
    let n = value.len() as int;
    assert(value[0] == '$' && value[1] == '{');
    assert(value.last() == (if name.len() == 0 { '{' } else { name.last() }));
    lemma_line_decomposes(key, value, env, table);
    let st0 = vm_init();
    let st1 = VmState { mode: SubstMode::Plain, ..st0 };
    assert(vm_step(st0, '$', env, table) == VmStep::Next(st1));
    let st2 = VmState { mode: SubstMode::Braced, ..st1 };
    assert(vm_step(st1, '{', env, table) == VmStep::Next(st2));
    assert(vm_run(value, 0, st0, env, table) == vm_run(value, 1, st1, env, table));
    assert(vm_run(value, 1, st1, env, table) == vm_run(value, 2, st2, env, table));
    assert(forall|k: int| 0 <= k < name.len() ==> value[2 + k] == name[k]);
    lemma_vm_accum_braced(value, 2, n, st2, env, table);
    let st3 = VmState { name: st2.name + value.subrange(2, n), ..st2 };
    assert(vm_run(value, n, st3, env, table) == vm_finish(value, st3, env, table));
    assert(vm_finish(value, st3, env, table) == ValueOutcome::Fail(n - 1));
}

/// Whitespace ends an unquoted value, and `#` after it starts a comment:
/// `KEY=v #anything` yields `v` with the comment discarded.
pub proof fn lemma_comment_after_value(
    key: Seq<char>,
    value: Seq<char>,
    sp: Seq<char>,
    rest: Seq<char>,
    env: Map<Seq<char>, Seq<char>>,
    table: Map<Seq<char>, Option<Seq<char>>>,
)
    requires
        valid_key(key),
        value.len() > 0,
        forall|i: int| 0 <= i < value.len() ==> plain_value_char(value[i]),
        value[0] != '#',
        sp.len() > 0,
        forall|i: int| 0 <= i < sp.len() ==> sp[i] == ' ' || sp[i] == '\t',
        rest.len() == 0 || !is_space_char(rest.last()),
        no_empty_name(env, table),
    ensures
        parse_line_spec(key + seq!['='] + (value + sp + seq!['#'] + rest), env, table) == (
        LineOutcome::Parsed { key, entry: Option::Some(value) }),
{
    let val = value + sp + seq!['#'] + rest;
    let vl = value.len() as int;
    let sl = sp.len() as int;
    let n = val.len() as int;
    assert(val[0] == value[0]);
    assert(val.last() == (if rest.len() == 0 { '#' } else { rest.last() }));
    lemma_line_decomposes(key, val, env, table);
    let st0 = vm_init();
    assert(forall|k: int| 0 <= k < vl ==> val[k] == value[k]);
    lemma_vm_copy_plain(val, 0, vl, st0, env, table);
    let st1 = VmState { out: st0.out + val.subrange(0, vl), ..st0 };
    assert(st1.out =~= value);
    assert(val[vl] == sp[0]);
    let st2 = VmState { expecting_end: true, ..st1 };
    assert(vm_step(st1, val[vl], env, table) == VmStep::Next(st2));
    assert(vm_run(val, vl, st1, env, table) == vm_run(val, vl + 1, st2, env, table));
    assert(forall|k: int| 0 <= k < sl ==> val[vl + k] == sp[k]);
    lemma_vm_skip_expecting(val, vl + 1, vl + sl, st2, env, table);
    assert(val[vl + sl] == '#');
    assert(vm_step(st2, '#', env, table) == VmStep::Stop);
    assert(vm_run(val, vl + sl, st2, env, table) == vm_finish(val, st2, env, table));
    assert(st2.out + resolve(env, table, st2.name) =~= value);
}

/// Whitespace ends an unquoted value, and anything but whitespace or `#`
/// after it is illegal: `KEY=v w` fails at the index of `w`.
pub proof fn lemma_trailing_token_rejected(
    key: Seq<char>,
    value: Seq<char>,
    sp: Seq<char>,
    c: char,
    env: Map<Seq<char>, Seq<char>>,
    table: Map<Seq<char>, Option<Seq<char>>>,
)
    requires
        valid_key(key),
        value.len() > 0,
        forall|i: int| 0 <= i < value.len() ==> plain_value_char(value[i]),
        value[0] != '#',
        sp.len() > 0,
        forall|i: int| 0 <= i < sp.len() ==> sp[i] == ' ' || sp[i] == '\t',
        !is_space_char(c),
        c != '#',
    ensures
        parse_line_spec(key + seq!['='] + (value + sp + seq![c]), env, table) == (
        LineOutcome::Rejected {
            text: key + seq!['='] + (value + sp + seq![c]),
            idx: key.len() as int + 1 + value.len() as int + sp.len() as int,
        }),
{
    let val = value + sp + seq![c];
    let vl = value.len() as int;
    let sl = sp.len() as int;
    let n = val.len() as int;
    assert(val[0] == value[0]);
    assert(val.last() == c);
    lemma_line_decomposes(key, val, env, table);
    let st0 = vm_init();
    assert(forall|k: int| 0 <= k < vl ==> val[k] == value[k]);
    lemma_vm_copy_plain(val, 0, vl, st0, env, table);
    let st1 = VmState { out: st0.out + val.subrange(0, vl), ..st0 };
    assert(val[vl] == sp[0]);
    let st2 = VmState { expecting_end: true, ..st1 };
    assert(vm_step(st1, val[vl], env, table) == VmStep::Next(st2));
    assert(vm_run(val, vl, st1, env, table) == vm_run(val, vl + 1, st2, env, table));
    assert(forall|k: int| 0 <= k < sl ==> val[vl + k] == sp[k]);
    lemma_vm_skip_expecting(val, vl + 1, vl + sl, st2, env, table);
    assert(val[vl + sl] == c);
    assert(vm_step(st2, c, env, table) == VmStep::Reject);
    assert(vm_run(val, vl + sl, st2, env, table) == ValueOutcome::Fail(vl + sl));
}

/// A line whose first character can start no key — a dot, a digit, anything
/// but an ASCII letter or underscore — fails at index 0.
pub proof fn lemma_invalid_key_start(
    line: Seq<char>,
    env: Map<Seq<char>, Seq<char>>,
    table: Map<Seq<char>, Option<Seq<char>>>,
)
    requires
        line.len() > 0,
        !is_space_char(line[0]),
        !is_key_start(line[0]),
        line[0] != '#',
    ensures
        parse_line_spec(line, env, table) == (LineOutcome::Rejected {
            text: line.take(rtrim_len(line)),
            idx: 0,
        }),
{
    lemma_rtrim_keeps(line, 0);
    lemma_rtrim_bounds(line);
    let t = line.take(rtrim_len(line));
    assert(t[0] == line[0]);
    lemma_skip_ws(t, 0, 0);
}

/// A line of nothing but whitespace yields no pair, and no error.
pub proof fn lemma_blank_line(
    line: Seq<char>,
    env: Map<Seq<char>, Seq<char>>,
    table: Map<Seq<char>, Option<Seq<char>>>,
)
    requires
        forall|i: int| 0 <= i < line.len() ==> is_space_char(line[i]),
    ensures
        parse_line_spec(line, env, table) == LineOutcome::Skipped,
{
    lemma_rtrim(line, 0);
    let t = line.take(rtrim_len(line));
    assert(t.len() == 0);
}

/// A line whose first non-whitespace character is `#` is a comment: no
/// pair, and no error.
pub proof fn lemma_comment_line(
    line: Seq<char>,
    k: int,
    env: Map<Seq<char>, Seq<char>>,
    table: Map<Seq<char>, Option<Seq<char>>>,
)
    requires
        0 <= k < line.len(),
        forall|i: int| 0 <= i < k ==> is_space_char(line[i]),
        line[k] == '#',
    ensures
        parse_line_spec(line, env, table) == LineOutcome::Skipped,
{
    lemma_rtrim_keeps(line, k);
    lemma_rtrim_bounds(line);
    let t = line.take(rtrim_len(line));
    assert(forall|i: int| 0 <= i < k ==> t[i] == line[i]);
    assert(t[k] == '#');
    lemma_skip_ws(t, 0, k);
}

/// A braced substitution in an unquoted value: `KEY=${NAME}tail` resolves
/// the name and appends the tail.
pub proof fn lemma_braced_subst_line(
    key: Seq<char>,
    name: Seq<char>,
    tail: Seq<char>,
    env: Map<Seq<char>, Seq<char>>,
    table: Map<Seq<char>, Option<Seq<char>>>,
)
    requires
        valid_key(key),
        forall|i: int| 0 <= i < name.len() ==> name[i] != '}',
        forall|i: int| 0 <= i < tail.len() ==> plain_value_char(tail[i]),
        no_empty_name(env, table),
    ensures
        parse_line_spec(key + seq!['='] + (seq!['$', '{'] + name + seq!['}'] + tail), env, table)
            == (LineOutcome::Parsed {
            key,
            entry: Option::Some(resolve(env, table, name) + tail),
        }),
{
    let value = seq!['$', '{'] + name + seq!['}'] + tail;
    let nl = name.len() as int;
    let n = value.len() as int;
    assert(value[0] == '$' && value[1] == '{');
    assert(value[2 + nl] == '}');
    assert(value.last() == (if tail.len() == 0 { '}' } else { tail.last() }));
    lemma_line_decomposes(key, value, env, table);
    let st0 = vm_init();
    let st1 = VmState { mode: SubstMode::Plain, ..st0 };
    assert(vm_step(st0, '$', env, table) == VmStep::Next(st1));
    let st2 = VmState { mode: SubstMode::Braced, ..st1 };
    assert(vm_step(st1, '{', env, table) == VmStep::Next(st2));
    assert(vm_run(value, 0, st0, env, table) == vm_run(value, 1, st1, env, table));
    assert(vm_run(value, 1, st1, env, table) == vm_run(value, 2, st2, env, table));
    assert(forall|k: int| 0 <= k < nl ==> value[2 + k] == name[k]);
    lemma_vm_accum_braced(value, 2, 2 + nl, st2, env, table);
    let st3 = VmState { name: st2.name + value.subrange(2, 2 + nl), ..st2 };
    assert(st3.name =~= name);
    let st4 = VmState {
        mode: SubstMode::Inactive,
        name: Seq::empty(),
        out: st3.out + resolve(env, table, st3.name),
        ..st3
    };
    assert(vm_step(st3, '}', env, table) == VmStep::Next(st4));
    assert(vm_run(value, 2 + nl, st3, env, table) == vm_run(value, 3 + nl, st4, env, table));
    assert(forall|k: int| 0 <= k < tail.len() ==> value[3 + nl + k] == tail[k]);
    lemma_vm_plain_to_end(value, 3 + nl, st4, env, table);
    assert(st4.out + value.subrange(3 + nl, n) =~= resolve(env, table, name) + tail);
}

/// Substitution is strictly backward-looking. Parsing `KEY1=a` records the
/// pair; a later `KEY2=${KEY1}b` then expands it to `ab`. In the other
/// order — when the table does not yet give `KEY1` a value — the same
/// second line yields only `b`: the expansion is empty, and no error.
pub proof fn lemma_sequencing(
    key1: Seq<char>,
    a: Seq<char>,
    key2: Seq<char>,
    b: Seq<char>,
    env: Map<Seq<char>, Seq<char>>,
    t0: Map<Seq<char>, Option<Seq<char>>>,
)
    requires
        valid_key(key1),
        valid_key(key2),
        a.len() > 0,
        forall|i: int| 0 <= i < a.len() ==> plain_value_char(a[i]),
        a[0] != '#',
        forall|i: int| 0 <= i < b.len() ==> plain_value_char(b[i]),
        !env.contains_key(key1),
        no_empty_name(env, t0),
    ensures
        parse_line_spec(key1 + seq!['='] + a, env, t0) == (LineOutcome::Parsed {
            key: key1,
            entry: Option::Some(a),
        }),
        parse_line_spec(
            key2 + seq!['='] + (seq!['$', '{'] + key1 + seq!['}'] + b),
            env,
            t0.insert(key1, Option::Some(a)),
        ) == (LineOutcome::Parsed { key: key2, entry: Option::Some(a + b) }),
        !t0.contains_key(key1) || t0[key1] is None ==> parse_line_spec(
            key2 + seq!['='] + (seq!['$', '{'] + key1 + seq!['}'] + b),
            env,
            t0,
        ) == (LineOutcome::Parsed { key: key2, entry: Option::Some(b) }),
{
    lemma_plain_line(key1, a, env, t0);
    let t1 = t0.insert(key1, Option::Some(a));
    assert(forall|i: int| 0 <= i < key1.len() ==> key1[i] != '}');
    assert(!t1.contains_key(Seq::empty()));
    lemma_braced_subst_line(key2, key1, b, env, t1);
    assert(resolve(env, t1, key1) == a);
    if !t0.contains_key(key1) || t0[key1] is None {
        lemma_braced_subst_line(key2, key1, b, env, t0);
        assert(resolve(env, t0, key1) =~= Seq::<char>::empty());
        assert(resolve(env, t0, key1) + b =~= b);
    }
}

/// Substitution inside weak quotes: `KEY="a${NAME}b"` resolves the name
/// between the copied halves, whatever the quotes around it.
pub proof fn lemma_weak_quote_subst(
    key: Seq<char>,
    aa: Seq<char>,
    name: Seq<char>,
    bb: Seq<char>,
    env: Map<Seq<char>, Seq<char>>,
    table: Map<Seq<char>, Option<Seq<char>>>,
)
    requires
        valid_key(key),
        forall|i: int| 0 <= i < aa.len() ==> aa[i] != '"' && aa[i] != '\\' && aa[i] != '$',
        forall|i: int| 0 <= i < name.len() ==> name[i] != '}',
        forall|i: int| 0 <= i < bb.len() ==> bb[i] != '"' && bb[i] != '\\' && bb[i] != '$',
        no_empty_name(env, table),
    ensures
        parse_line_spec(
            key + seq!['='] + (seq!['"'] + aa + seq!['$', '{'] + name + seq!['}'] + bb
                + seq!['"']),
            env,
            table,
        ) == (LineOutcome::Parsed {
            key,
            entry: Option::Some(aa + resolve(env, table, name) + bb),
        }),
{
    let value = seq!['"'] + aa + seq!['$', '{'] + name + seq!['}'] + bb + seq!['"'];
    let al = aa.len() as int;
    let nl = name.len() as int;
    let bl = bb.len() as int;
    let n = value.len() as int;
    assert(value[0] == '"');
    assert(value.last() == '"');
    lemma_line_decomposes(key, value, env, table);
    let st0 = vm_init();
    let st1 = VmState { weak_quote: true, ..st0 };
    assert(vm_step(st0, '"', env, table) == VmStep::Next(st1));
    assert(vm_run(value, 0, st0, env, table) == vm_run(value, 1, st1, env, table));
    assert(forall|k: int| 0 <= k < al ==> value[1 + k] == aa[k]);
    lemma_vm_copy_weak(value, 1, 1 + al, st1, env, table);
    let st2 = VmState { out: st1.out + value.subrange(1, 1 + al), ..st1 };
    assert(st2.out =~= aa);
    assert(value[1 + al] == '$');
    let st3 = VmState { mode: SubstMode::Plain, ..st2 };
    assert(vm_step(st2, '$', env, table) == VmStep::Next(st3));
    assert(vm_run(value, 1 + al, st2, env, table) == vm_run(value, 2 + al, st3, env, table));
    assert(value[2 + al] == '{');
    let st4 = VmState { mode: SubstMode::Braced, ..st3 };
    assert(vm_step(st3, '{', env, table) == VmStep::Next(st4));
    assert(vm_run(value, 2 + al, st3, env, table) == vm_run(value, 3 + al, st4, env, table));
    assert(forall|k: int| 0 <= k < nl ==> value[3 + al + k] == name[k]);
    lemma_vm_accum_braced(value, 3 + al, 3 + al + nl, st4, env, table);
    let st5 = VmState { name: st4.name + value.subrange(3 + al, 3 + al + nl), ..st4 };
    assert(st5.name =~= name);
    assert(value[3 + al + nl] == '}');
    let st6 = VmState {
        mode: SubstMode::Inactive,
        name: Seq::empty(),
        out: st5.out + resolve(env, table, st5.name),
        ..st5
    };
    assert(vm_step(st5, '}', env, table) == VmStep::Next(st6));
    assert(vm_run(value, 3 + al + nl, st5, env, table) == vm_run(
        value,
        4 + al + nl,
        st6,
        env,
        table,
    ));
    assert(forall|k: int| 0 <= k < bl ==> value[4 + al + nl + k] == bb[k]);
    lemma_vm_copy_weak(value, 4 + al + nl, 4 + al + nl + bl, st6, env, table);
    let st7 = VmState { out: st6.out + value.subrange(4 + al + nl, 4 + al + nl + bl), ..st6 };
    assert(st7.out =~= aa + resolve(env, table, name) + bb);
    assert(value[4 + al + nl + bl] == '"');
    let st8 = VmState { weak_quote: false, ..st7 };
    assert(vm_step(st7, '"', env, table) == VmStep::Next(st8));
    assert(vm_run(value, 4 + al + nl + bl, st7, env, table) == vm_run(
        value,
        n,
        st8,
        env,
        table,
    ));
    assert(vm_run(value, n, st8, env, table) == vm_finish(value, st8, env, table));
    assert(st8.out + resolve(env, table, st8.name) =~= aa + resolve(env, table, name) + bb);
}

} // verus!
