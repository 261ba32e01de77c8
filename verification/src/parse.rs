//! The key parser and the per-line orchestration.
//!
//! A line is right-trimmed, then: leading whitespace is skipped; an empty
//! rest or a `#` yields no pair; otherwise a key token is read (`export` may
//! be an optional prefix or a key of its own), the `=` is consumed, and the
//! rest of the line goes to the value state machine. A successful pair is
//! recorded in the caller's substitution table so that later lines of the
//! same source can substitute it.

use vstd::prelude::*;

use crate::chars::is_key_char;
use crate::chars::is_key_start;
use crate::chars::is_space_char;
use crate::errors::is_line_err;
use crate::errors::Error;
use crate::machine::parse_value_chars;
use crate::machine::parse_value_spec;
use crate::machine::ValueOutcome;
use crate::table::Environment;
use crate::table::SubstitutionTable;

verus! {

/// The length of `s` with trailing whitespace removed.
pub open spec fn rtrim_len(s: Seq<char>) -> int
    decreases s.len(),
{
    if s.len() == 0 {
        0
    } else if is_space_char(s.last()) {
        rtrim_len(s.drop_last())
    } else {
        s.len() as int
    }
}

/// The first index at or after `i` holding a non-whitespace character, or
/// the end of `s`.
pub open spec fn skip_ws_from(s: Seq<char>, i: int) -> int
    decreases s.len() - i,
{
    if !(0 <= i < s.len()) {
        s.len() as int
    } else if is_space_char(s[i]) {
        skip_ws_from(s, i + 1)
    } else {
        i
    }
}

/// The first index at or after `i` holding a character that cannot continue
/// a key, or the end of `s`.
pub open spec fn key_end_from(s: Seq<char>, i: int) -> int
    decreases s.len() - i,
{
    if !(0 <= i < s.len()) {
        s.len() as int
    } else if is_key_char(s[i]) {
        key_end_from(s, i + 1)
    } else {
        i
    }
}

/// How one line ends.
pub enum LineOutcome {
    /// A blank line or a full-line comment: no pair, the table unchanged.
    Skipped,
    /// A pair: the key, and the table entry recorded for it. The entry is
    /// `None` for `KEY=` with nothing (or only a comment) after the `=`; the
    /// returned value string is then empty.
    Parsed { key: Seq<char>, entry: Option<Seq<char>> },
    /// A grammar violation at character `idx` of `text`. `text` is always
    /// the right-trimmed original line, and `idx` counts from its start: a
    /// fault inside the value is translated by the value's offset in the
    /// line.
    Rejected { text: Seq<char>, idx: int },
}

/// The value half of a line, starting right after the `=` at index `p` of
/// the trimmed line `t`. A fault inside the value is reported against `t`,
/// at the value's offset plus the machine's index.
pub open spec fn after_equal_spec(
    t: Seq<char>,
    key: Seq<char>,
    p: int,
    env: Map<Seq<char>, Seq<char>>,
    table: Map<Seq<char>, Option<Seq<char>>>,
) -> LineOutcome {
    let v = skip_ws_from(t, p);
    if v >= t.len() || t[v] == '#' {
        LineOutcome::Parsed { key, entry: Option::None }
    } else {
        let val = t.subrange(v, t.len() as int);
        match parse_value_spec(val, env, table) {
            ValueOutcome::Done(out) => LineOutcome::Parsed { key, entry: Option::Some(out) },
            ValueOutcome::Fail(idx) => LineOutcome::Rejected { text: t, idx: v + idx },
        }
    }
}

/// What parsing `line` against `env` and `table` yields.
///
/// The line is right-trimmed; blank lines and `#` comments yield no pair. A
/// key starts with an ASCII letter or underscore and continues with ASCII
/// alphanumerics, underscores and dots. The token `export` is an optional
/// prefix when a second key follows, and a plain key when `=` follows it
/// directly.
pub open spec fn parse_line_spec(
    line: Seq<char>,
    env: Map<Seq<char>, Seq<char>>,
    table: Map<Seq<char>, Option<Seq<char>>>,
) -> LineOutcome {
    let t = line.take(rtrim_len(line));
    let i0 = skip_ws_from(t, 0);
    if i0 >= t.len() {
        LineOutcome::Skipped
    } else if t[i0] == '#' {
        LineOutcome::Skipped
    } else if !is_key_start(t[i0]) {
        LineOutcome::Rejected { text: t, idx: i0 }
    } else {
        let ke = key_end_from(t, i0);
        let key = t.subrange(i0, ke);
        let j = skip_ws_from(t, ke);
        if key == "export"@ && !(j < t.len() && t[j] == '=') {
            if j >= t.len() || !is_key_start(t[j]) {
                LineOutcome::Rejected { text: t, idx: j }
            } else {
                let ke2 = key_end_from(t, j);
                let key2 = t.subrange(j, ke2);
                let j2 = skip_ws_from(t, ke2);
                if j2 < t.len() && t[j2] == '=' {
                    after_equal_spec(t, key2, j2 + 1, env, table)
                } else {
                    LineOutcome::Rejected { text: t, idx: j2 }
                }
            }
        } else {
            if j < t.len() && t[j] == '=' {
                after_equal_spec(t, key, j + 1, env, table)
            } else {
                LineOutcome::Rejected { text: t, idx: j }
            }
        }
    }
}

/// `skip_ws_from` lands on `b` when everything from `a` up to `b` is
/// whitespace and `b` is the end or a non-whitespace character.
pub(crate) proof fn lemma_skip_ws(s: Seq<char>, a: int, b: int)
    requires
        0 <= a <= b <= s.len(),
        forall|k: int| a <= k < b ==> is_space_char(s[k]),
        b == s.len() || !is_space_char(s[b]),
    ensures
        skip_ws_from(s, a) == b,
    decreases b - a,
{
    if a < b {
        lemma_skip_ws(s, a + 1, b);
    }
}

/// `key_end_from` lands on `b` when everything from `a` up to `b` continues
/// a key and `b` is the end or a non-key character.
pub(crate) proof fn lemma_key_end(s: Seq<char>, a: int, b: int)
    requires
        0 <= a <= b <= s.len(),
        forall|k: int| a <= k < b ==> is_key_char(s[k]),
        b == s.len() || !is_key_char(s[b]),
    ensures
        key_end_from(s, a) == b,
    decreases b - a,
{
    if a < b {
        lemma_key_end(s, a + 1, b);
    }
}

/// The right-trimmed line `chars[..end]` as a string: the text every
/// grammar error carries.
fn trimmed_text(chars: &Vec<char>, end: usize) -> (r: String)
    requires
        end <= chars@.len(),
    ensures
        r@ == chars@.take(end as int),
{
    let r = crate::chars::chars_to_string(chars, 0, end);
    proof {
        assert(chars@.subrange(0, end as int) =~= chars@.take(end as int));
    }
    r
}

/// Finish a line whose key is `key_str` and whose `=` ends at character
/// `p` of the trimmed line: skip whitespace, hand the rest to the value
/// state machine, and record the pair in `table`.
fn finish_after_equal(
    line: &str,
    chars: &Vec<char>,
    end: usize,
    key_str: String,
    p: usize,
    table: &mut SubstitutionTable,
    env: &Environment,
) -> (r: Result<Option<(String, String)>, Error>)
    requires
        chars@ == line@,
        end as int == rtrim_len(line@),
        p <= end <= chars@.len(),
        key_str@.len() > 0,
        old(table).wf(),
        env.wf(),
    ensures
        final(table).wf(),
        (match after_equal_spec(
            line@.take(rtrim_len(line@)),
            key_str@,
            p as int,
            env@,
            old(table)@,
        ) {
            LineOutcome::Skipped => false,
            LineOutcome::Parsed { key, entry } => r matches Ok(o) && o matches Some(pair)
                && pair.0@ == key && pair.1@ == (match entry {
                Option::Some(v) => v,
                Option::None => Seq::<char>::empty(),
            }) && final(table)@ == old(table)@.insert(key, entry),
            LineOutcome::Rejected { text, idx } => r matches Err(e) && is_line_err(e, text, idx)
                && final(table)@ == old(table)@,
        }),
{
    let ghost t = line@.take(rtrim_len(line@));
    proof {
        assert(t =~= chars@.take(end as int));
    }
    let mut v: usize = p;
    while v < end && crate::chars::char_is_space(chars[v])
        invariant
            p <= v <= end <= chars@.len(),
            t == chars@.take(end as int),
            forall|k: int| p <= k < v ==> is_space_char(t[k]),
        decreases end - v,
    {
        v = v + 1;
    }
    proof {
        lemma_skip_ws(t, p as int, v as int);
    }
    let key_chars = crate::chars::str_chars_vec(key_str.as_str());
    if v == end || chars[v] == '#' {
        table.insert_chars(key_chars, Option::None);
        return Ok(Some((key_str, String::new())));
    }
    let mut val_chars: Vec<char> = Vec::new();
    let mut k: usize = v;
    while k < end
        invariant
            v <= k <= end <= chars@.len(),
            t == chars@.take(end as int),
            val_chars@ == t.subrange(v as int, k as int),
        decreases end - k,
    {
        val_chars.push(chars[k]);
        k = k + 1;
        proof {
            assert(val_chars@ =~= t.subrange(v as int, k as int));
        }
    }
    proof {
        assert(val_chars@ == t.subrange(v as int, t.len() as int));
    }
    match parse_value_chars(&val_chars, table, env) {
        Ok(out) => {
            let out_str = crate::chars::chars_to_string(&out, 0, out.len());
            proof {
                assert(out@.subrange(0, out@.len() as int) =~= out@);
            }
            table.insert_chars(key_chars, Option::Some(out));
            Ok(Some((key_str, out_str)))
        },
        Err(i) => {
            proof {
                crate::machine::lemma_vm_fail_in_range(
                    val_chars@,
                    0,
                    crate::machine::vm_init(),
                    env@,
                    table@,
                );
            }
            let txt = crate::chars::chars_to_string(chars, 0, end);
            proof {
                assert(chars@.subrange(0, end as int) =~= t);
            }
            Err(Error::LineParse(txt, v + i))
        },
    }
}

/// Parse one configuration line against the process environment `env` and
/// the keys parsed so far in `table`.
///
/// Returns `Ok(None)` for a blank line or a full-line comment,
/// `Ok(Some((key, value)))` for a pair — which is also recorded in `table`
/// for later lines to substitute — and `Err` for a grammar violation,
/// carrying the right-trimmed line and the character index of the fault
/// within it. The table is unchanged on `Ok(None)` and on errors.
pub fn parse_line(line: &str, table: &mut SubstitutionTable, env: &Environment) -> (r: Result<
    Option<(String, String)>,
    Error,
>)
    requires
        old(table).wf(),
        env.wf(),
    ensures
        final(table).wf(),
        (match parse_line_spec(line@, env@, old(table)@) {
            LineOutcome::Skipped => r matches Ok(o) && o is None && final(table)@ == old(table)@,
            LineOutcome::Parsed { key, entry } => r matches Ok(o) && o matches Some(pair)
                && pair.0@ == key && pair.1@ == (match entry {
                Option::Some(val) => val,
                Option::None => Seq::<char>::empty(),
            }) && final(table)@ == old(table)@.insert(key, entry),
            LineOutcome::Rejected { text, idx } => r matches Err(e) && is_line_err(e, text, idx)
                && final(table)@ == old(table)@,
        }),
{
    let chars = crate::chars::str_chars_vec(line);
    let n = chars.len();
    let mut end: usize = n;
    while end > 0 && crate::chars::char_is_space(chars[end - 1])
        invariant
            end <= n,
            n == chars@.len(),
            chars@ == line@,
            forall|k: int| end <= k < n ==> is_space_char(chars@[k]),
        decreases end,
    {
        end = end - 1;
    }
    proof {
        lemma_rtrim(line@, end as int);
    }
    let ghost t = line@.take(rtrim_len(line@));
    proof {
        assert(t =~= chars@.take(end as int));
    }
    let mut i0: usize = 0;
    while i0 < end && crate::chars::char_is_space(chars[i0])
        invariant
            i0 <= end <= n == chars@.len(),
            chars@ == line@,
            t == chars@.take(end as int),
            forall|k: int| 0 <= k < i0 ==> is_space_char(t[k]),
        decreases end - i0,
    {
        i0 = i0 + 1;
    }
    proof {
        lemma_skip_ws(t, 0, i0 as int);
    }
    if i0 == end || chars[i0] == '#' {
        return Ok(None);
    }
    if !crate::chars::char_is_key_start(chars[i0]) {
        return Err(Error::LineParse(trimmed_text(&chars, end), i0));
    }
    let mut ke: usize = i0;
    while ke < end && crate::chars::char_is_key_char(chars[ke])
        invariant
            i0 <= ke <= end <= chars@.len(),
            t == chars@.take(end as int),
            forall|k: int| i0 <= k < ke ==> is_key_char(t[k]),
        decreases end - ke,
    {
        ke = ke + 1;
    }
    proof {
        lemma_key_end(t, i0 as int, ke as int);
        assert(is_key_char(t[i0 as int]));
        assert(ke > i0);
    }
    let key_str = crate::chars::chars_to_string(&chars, i0, ke);
    proof {
        assert(chars@.subrange(i0 as int, ke as int) =~= t.subrange(i0 as int, ke as int));
    }
    let mut j: usize = ke;
    while j < end && crate::chars::char_is_space(chars[j])
        invariant
            ke <= j <= end <= chars@.len(),
            t == chars@.take(end as int),
            forall|k: int| ke <= k < j ==> is_space_char(t[k]),
        decreases end - j,
    {
        j = j + 1;
    }
    proof {
        lemma_skip_ws(t, ke as int, j as int);
    }
    let export_string = "export".to_owned();
    let is_export = key_str == export_string;
    let eq_at_j = j < end && chars[j] == '=';
    if is_export && !eq_at_j {
        if j == end || !crate::chars::char_is_key_start(chars[j]) {
            return Err(Error::LineParse(trimmed_text(&chars, end), j));
        }
        let mut ke2: usize = j;
        while ke2 < end && crate::chars::char_is_key_char(chars[ke2])
            invariant
                j <= ke2 <= end <= chars@.len(),
                t == chars@.take(end as int),
                forall|k: int| j <= k < ke2 ==> is_key_char(t[k]),
            decreases end - ke2,
        {
            ke2 = ke2 + 1;
        }
        proof {
            lemma_key_end(t, j as int, ke2 as int);
            assert(is_key_char(t[j as int]));
            assert(ke2 > j);
        }
        let key2_str = crate::chars::chars_to_string(&chars, j, ke2);
        proof {
            assert(chars@.subrange(j as int, ke2 as int) =~= t.subrange(j as int, ke2 as int));
        }
        let mut j2: usize = ke2;
        while j2 < end && crate::chars::char_is_space(chars[j2])
            invariant
                ke2 <= j2 <= end <= chars@.len(),
                t == chars@.take(end as int),
                forall|k: int| ke2 <= k < j2 ==> is_space_char(t[k]),
            decreases end - j2,
        {
            j2 = j2 + 1;
        }
        proof {
            lemma_skip_ws(t, ke2 as int, j2 as int);
        }
        if !(j2 < end && chars[j2] == '=') {
            return Err(Error::LineParse(trimmed_text(&chars, end), j2));
        }
        finish_after_equal(line, &chars, end, key2_str, j2 + 1, table, env)
    } else if eq_at_j {
        finish_after_equal(line, &chars, end, key_str, j + 1, table, env)
    } else {
        Err(Error::LineParse(trimmed_text(&chars, end), j))
    }
}

/// `rtrim_len` is `e` when everything from `e` on is whitespace and `e` is
/// the start or preceded by a non-whitespace character.
pub(crate) proof fn lemma_rtrim(s: Seq<char>, e: int)
    requires
        0 <= e <= s.len(),
        forall|k: int| e <= k < s.len() ==> is_space_char(s[k]),
        e == 0 || !is_space_char(s[e - 1]),
    ensures
        rtrim_len(s) == e,
    decreases s.len(),
{
    if s.len() > e {
        assert(is_space_char(s.last()));
        assert(forall|k: int| e <= k < s.drop_last().len() ==> s.drop_last()[k] == s[k]);
        lemma_rtrim(s.drop_last(), e);
    } else {
        if e != 0 {
            assert(!is_space_char(s.last()));
        }
    }
}

} // verus!
