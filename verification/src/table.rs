//! The substitution table and the environment snapshot.
//!
//! Both are associations from a variable name to a value, modelled as a
//! `Map` over character sequences. The [`SubstitutionTable`] holds the keys
//! already parsed from the current source; a key maps to `None` when the line
//! declared it without a value (`KEY=`). The [`Environment`] holds the
//! process environment as the caller captured it; the parser only reads it.
//!
//! A substitution name resolves to the environment's value when the
//! environment knows the name, otherwise to the table's value when the table
//! maps it to one, otherwise to the empty string. An unknown name is never an
//! error.

use vstd::prelude::*;

verus! {

/// What a substitution name expands to, given the environment and the table:
/// the environment wins, the table is second, an unknown or value-less name
/// expands to nothing.
pub open spec fn resolve(
    env: Map<Seq<char>, Seq<char>>,
    table: Map<Seq<char>, Option<Seq<char>>>,
    name: Seq<char>,
) -> Seq<char> {
    if env.contains_key(name) {
        env[name]
    } else if table.contains_key(name) && table[name] is Some {
        table[name]->0
    } else {
        Seq::empty()
    }
}

/// The association of a list of entries, later entries shadowing earlier
/// ones.
pub open spec fn table_map_of(s: Seq<(Vec<char>, Option<Vec<char>>)>) -> Map<
    Seq<char>,
    Option<Seq<char>>,
>
    decreases s.len(),
{
    if s.len() == 0 {
        Map::empty()
    } else {
        table_map_of(s.drop_last()).insert(s.last().0@, opt_chars_view(s.last().1))
    }
}

pub open spec fn opt_chars_view(v: Option<Vec<char>>) -> Option<Seq<char>> {
    match v {
        Option::None => Option::None,
        Option::Some(x) => Option::Some(x@),
    }
}

/// The association of a list of environment entries.
pub open spec fn env_map_of(s: Seq<(Vec<char>, Vec<char>)>) -> Map<Seq<char>, Seq<char>>
    decreases s.len(),
{
    if s.len() == 0 {
        Map::empty()
    } else {
        env_map_of(s.drop_last()).insert(s.last().0@, s.last().1@)
    }
}

/// The keys parsed so far from one configuration source.
pub struct SubstitutionTable {
    entries: Vec<(Vec<char>, Option<Vec<char>>)>,
}

/// A read-only snapshot of the process environment, as name/value pairs.
pub struct Environment {
    entries: Vec<(Vec<char>, Vec<char>)>,
}

impl View for SubstitutionTable {
    type V = Map<Seq<char>, Option<Seq<char>>>;

    closed spec fn view(&self) -> Map<Seq<char>, Option<Seq<char>>> {
        table_map_of(self.entries@)
    }
}

impl View for Environment {
    type V = Map<Seq<char>, Seq<char>>;

    closed spec fn view(&self) -> Map<Seq<char>, Seq<char>> {
        env_map_of(self.entries@)
    }
}

proof fn lemma_table_map_contains(s: Seq<(Vec<char>, Option<Vec<char>>)>, k: Seq<char>)
    ensures
        table_map_of(s).contains_key(k) <==> exists|i: int| 0 <= i < s.len() && s[i].0@ == k,
    decreases s.len(),
{
    if s.len() > 0 {
        lemma_table_map_contains(s.drop_last(), k);
        if s.last().0@ == k {
            assert(s[s.len() - 1].0@ == k);
        } else if table_map_of(s).contains_key(k) {
            let i = choose|i: int| 0 <= i < s.drop_last().len() && s.drop_last()[i].0@ == k;
            assert(s[i].0@ == k);
        } else if exists|i: int| 0 <= i < s.len() && s[i].0@ == k {
            let i = choose|i: int| 0 <= i < s.len() && s[i].0@ == k;
            assert(s.drop_last()[i].0@ == k);
        }
    }
}

proof fn lemma_env_map_contains(s: Seq<(Vec<char>, Vec<char>)>, k: Seq<char>)
    ensures
        env_map_of(s).contains_key(k) <==> exists|i: int| 0 <= i < s.len() && s[i].0@ == k,
    decreases s.len(),
{
    if s.len() > 0 {
        lemma_env_map_contains(s.drop_last(), k);
        if s.last().0@ == k {
            assert(s[s.len() - 1].0@ == k);
        } else if env_map_of(s).contains_key(k) {
            let i = choose|i: int| 0 <= i < s.drop_last().len() && s.drop_last()[i].0@ == k;
            assert(s[i].0@ == k);
        } else if exists|i: int| 0 <= i < s.len() && s[i].0@ == k {
            let i = choose|i: int| 0 <= i < s.len() && s[i].0@ == k;
            assert(s.drop_last()[i].0@ == k);
        }
    }
}

/// No two entries share a key.
spec fn table_keys_distinct(s: Seq<(Vec<char>, Option<Vec<char>>)>) -> bool {
    forall|i: int, j: int| 0 <= i < j < s.len() ==> s[i].0@ != s[j].0@
}

spec fn env_keys_distinct(s: Seq<(Vec<char>, Vec<char>)>) -> bool {
    forall|i: int, j: int| 0 <= i < j < s.len() ==> s[i].0@ != s[j].0@
}

proof fn lemma_table_map_at(s: Seq<(Vec<char>, Option<Vec<char>>)>, i: int)
    requires
        table_keys_distinct(s),
        0 <= i < s.len(),
    ensures
        table_map_of(s).contains_key(s[i].0@),
        table_map_of(s)[s[i].0@] == opt_chars_view(s[i].1),
    decreases s.len(),
{
    lemma_table_map_contains(s, s[i].0@);
    if i < s.len() - 1 {
        assert(s.drop_last()[i] == s[i]);
        lemma_table_map_at(s.drop_last(), i);
        assert(s[i].0@ != s.last().0@);
    }
}

proof fn lemma_env_map_at(s: Seq<(Vec<char>, Vec<char>)>, i: int)
    requires
        env_keys_distinct(s),
        0 <= i < s.len(),
    ensures
        env_map_of(s).contains_key(s[i].0@),
        env_map_of(s)[s[i].0@] == s[i].1@,
    decreases s.len(),
{
    lemma_env_map_contains(s, s[i].0@);
    if i < s.len() - 1 {
        assert(s.drop_last()[i] == s[i]);
        lemma_env_map_at(s.drop_last(), i);
        assert(s[i].0@ != s.last().0@);
    }
}

/// Replacing the value of the entry that holds key `k` updates the
/// association at `k` alone.
proof fn lemma_table_map_update(
    s: Seq<(Vec<char>, Option<Vec<char>>)>,
    i: int,
    e: (Vec<char>, Option<Vec<char>>),
)
    requires
        table_keys_distinct(s),
        0 <= i < s.len(),
        e.0@ == s[i].0@,
    ensures
        table_map_of(s.update(i, e)) == table_map_of(s).insert(e.0@, opt_chars_view(e.1)),
    decreases s.len(),
{
    let s2 = s.update(i, e);
    if i == s.len() - 1 {
        assert(s2.drop_last() =~= s.drop_last());
        assert(s2.last() == e);
    } else {
        lemma_table_map_update(s.drop_last(), i, e);
        assert(s2.drop_last() =~= s.drop_last().update(i, e));
        assert(s2.last() == s.last());
        assert(s.last().0@ != e.0@);
        assert(table_map_of(s2) == table_map_of(s.drop_last()).insert(
            e.0@,
            opt_chars_view(e.1),
        ).insert(s.last().0@, opt_chars_view(s.last().1)));
        assert(table_map_of(s.drop_last()).insert(e.0@, opt_chars_view(e.1)).insert(
            s.last().0@,
            opt_chars_view(s.last().1),
        ) =~= table_map_of(s).insert(e.0@, opt_chars_view(e.1)));
    }
}

proof fn lemma_env_map_update(s: Seq<(Vec<char>, Vec<char>)>, i: int, e: (Vec<char>, Vec<char>))
    requires
        env_keys_distinct(s),
        0 <= i < s.len(),
        e.0@ == s[i].0@,
    ensures
        env_map_of(s.update(i, e)) == env_map_of(s).insert(e.0@, e.1@),
    decreases s.len(),
{
    let s2 = s.update(i, e);
    if i == s.len() - 1 {
        assert(s2.drop_last() =~= s.drop_last());
        assert(s2.last() == e);
    } else {
        lemma_env_map_update(s.drop_last(), i, e);
        assert(s2.drop_last() =~= s.drop_last().update(i, e));
        assert(s2.last() == s.last());
        assert(s.last().0@ != e.0@);
        assert(env_map_of(s.drop_last()).insert(e.0@, e.1@).insert(s.last().0@, s.last().1@)
            =~= env_map_of(s).insert(e.0@, e.1@));
    }
}

/// Two character vectors hold the same characters.
pub(crate) fn chars_eq(a: &Vec<char>, b: &Vec<char>) -> (r: bool)
    ensures
        r == (a@ == b@),
{
    if a.len() != b.len() {
        proof {
            assert(a@ != b@);
        }
        return false;
    }
    let n = a.len();
    let mut i: usize = 0;
    while i < n
        invariant
            i <= n,
            n == a@.len() == b@.len(),
            forall|k: int| 0 <= k < i ==> a@[k] == b@[k],
        decreases n - i,
    {
        if a[i] != b[i] {
            return false;
        }
        i = i + 1;
    }
    proof {
        assert(a@ =~= b@);
    }
    true
}

impl SubstitutionTable {
    /// All keys are nonempty, and no key repeats.
    pub closed spec fn wf(&self) -> bool {
        &&& table_keys_distinct(self.entries@)
        &&& forall|i: int| 0 <= i < self.entries@.len() ==> self.entries@[i].0@.len() > 0
    }

    /// The table never maps the empty name.
    pub proof fn lemma_no_empty_key(&self)
        requires
            self.wf(),
        ensures
            !self@.contains_key(Seq::empty()),
    {
        lemma_table_map_contains(self.entries@, Seq::empty());
    }

    pub fn new() -> (r: SubstitutionTable)
        ensures
            r@ == Map::<Seq<char>, Option<Seq<char>>>::empty(),
            r.wf(),
    {
        SubstitutionTable { entries: Vec::new() }
    }

    /// The value stored under `name`: `None` when the table does not know the
    /// name, `Some(entry)` when it does.
    pub(crate) fn get_chars(&self, name: &Vec<char>) -> (r: Option<Option<Vec<char>>>)
        requires
            self.wf(),
        ensures
            match r {
                Option::None => !self@.contains_key(name@),
                Option::Some(e) => self@.contains_key(name@) && self@[name@] == opt_chars_view(
                    e,
                ),
            },
    {
        let n = self.entries.len();
        let mut i: usize = 0;
        while i < n
            invariant
                i <= n,
                n == self.entries@.len(),
                self.wf(),
                forall|k: int| 0 <= k < i ==> self.entries@[k].0@ != name@,
            decreases n - i,
        {
            if chars_eq(&self.entries[i].0, name) {
                let e = self.entries[i].1.clone();
                proof {
                    lemma_table_map_at(self.entries@, i as int);
                    assert(opt_chars_view(e) == opt_chars_view(self.entries@[i as int].1));
                }
                return Option::Some(e);
            }
            i = i + 1;
        }
        proof {
            lemma_table_map_contains(self.entries@, name@);
        }
        Option::None
    }

    /// Record `name` as parsed, with `value` as its entry, replacing any
    /// earlier entry for the same name.
    pub(crate) fn insert_chars(&mut self, name: Vec<char>, value: Option<Vec<char>>)
        requires
            old(self).wf(),
            name@.len() > 0,
        ensures
            final(self).wf(),
            final(self)@ == old(self)@.insert(name@, opt_chars_view(value)),
    {
        let n = self.entries.len();
        let mut i: usize = 0;
        while i < n
            invariant
                i <= n,
                n == self.entries@.len(),
                self.wf(),
                *self == *old(self),
                forall|k: int| 0 <= k < i ==> self.entries@[k].0@ != name@,
            decreases n - i,
        {
            if chars_eq(&self.entries[i].0, &name) {
                let ghost pre = self.entries@;
                self.entries.set(i, (name, value));
                proof {
                    lemma_table_map_update(pre, i as int, self.entries@[i as int]);
                    assert(forall|a: int, b: int|
                        0 <= a < b < self.entries@.len() ==> self.entries@[a].0@
                            != self.entries@[b].0@);
                }
                return ;
            }
            i = i + 1;
        }
        let ghost pre = self.entries@;
        self.entries.push((name, value));
        proof {
            assert(self.entries@.drop_last() =~= pre);
            assert(forall|a: int, b: int|
                0 <= a < b < self.entries@.len() ==> self.entries@[a].0@ != self.entries@[b].0@);
        }
    }

    /// Record `name` with entry `value`, replacing any earlier entry for the
    /// same name. An empty name is refused.
    pub fn insert(&mut self, name: &str, value: Option<&str>) -> (r: bool)
        requires
            old(self).wf(),
        ensures
            final(self).wf(),
            name@.len() > 0 ==> r && final(self)@ == old(self)@.insert(
                name@,
                match value {
                    Option::None => Option::None,
                    Option::Some(v) => Option::Some(v@),
                },
            ),
            name@.len() == 0 ==> !r && *final(self) == *old(self),
    {
        let name_chars = crate::chars::str_chars_vec(name);
        if name_chars.len() == 0 {
            return false;
        }
        let value_chars = match value {
            Option::None => Option::None,
            Option::Some(v) => Option::Some(crate::chars::str_chars_vec(v)),
        };
        self.insert_chars(name_chars, value_chars);
        true
    }

    /// The entry stored under `name`: `None` when the table does not know the
    /// name, `Some(None)` for a key declared without a value, and
    /// `Some(Some(v))` for a key with value `v`.
    pub fn get(&self, name: &str) -> (r: Option<Option<String>>)
        requires
            self.wf(),
        ensures
            match r {
                Option::None => !self@.contains_key(name@),
                Option::Some(e) => self@.contains_key(name@) && self@[name@] == (match e {
                    Option::None => Option::None,
                    Option::Some(v) => Option::Some(v@),
                }),
            },
    {
        let name_chars = crate::chars::str_chars_vec(name);
        match self.get_chars(&name_chars) {
            Option::None => Option::None,
            Option::Some(Option::None) => Option::Some(Option::None),
            Option::Some(Option::Some(v)) => {
                let s = crate::chars::chars_to_string(&v, 0, v.len());
                proof {
                    assert(v@.subrange(0, v@.len() as int) =~= v@);
                }
                Option::Some(Option::Some(s))
            },
        }
    }
}

impl Environment {
    /// All names are nonempty, and no name repeats.
    pub closed spec fn wf(&self) -> bool {
        &&& env_keys_distinct(self.entries@)
        &&& forall|i: int| 0 <= i < self.entries@.len() ==> self.entries@[i].0@.len() > 0
    }

    /// The environment never maps the empty name.
    pub proof fn lemma_no_empty_key(&self)
        requires
            self.wf(),
        ensures
            !self@.contains_key(Seq::empty()),
    {
        lemma_env_map_contains(self.entries@, Seq::empty());
    }

    pub fn new() -> (r: Environment)
        ensures
            r@ == Map::<Seq<char>, Seq<char>>::empty(),
            r.wf(),
    {
        Environment { entries: Vec::new() }
    }

    /// The environment's value for `name`, when it has one.
    pub(crate) fn get_chars(&self, name: &Vec<char>) -> (r: Option<Vec<char>>)
        requires
            self.wf(),
        ensures
            match r {
                Option::None => !self@.contains_key(name@),
                Option::Some(v) => self@.contains_key(name@) && self@[name@] == v@,
            },
    {
        let n = self.entries.len();
        let mut i: usize = 0;
        while i < n
            invariant
                i <= n,
                n == self.entries@.len(),
                self.wf(),
                forall|k: int| 0 <= k < i ==> self.entries@[k].0@ != name@,
            decreases n - i,
        {
            if chars_eq(&self.entries[i].0, name) {
                let v = self.entries[i].1.clone();
                proof {
                    lemma_env_map_at(self.entries@, i as int);
                    assert(v@ =~= self.entries@[i as int].1@);
                }
                return Option::Some(v);
            }
            i = i + 1;
        }
        proof {
            lemma_env_map_contains(self.entries@, name@);
        }
        Option::None
    }

    /// Record `name` with value `value`, replacing any earlier entry for the
    /// same name.
    pub(crate) fn insert_chars(&mut self, name: Vec<char>, value: Vec<char>)
        requires
            old(self).wf(),
            name@.len() > 0,
        ensures
            final(self).wf(),
            final(self)@ == old(self)@.insert(name@, value@),
    {
        let n = self.entries.len();
        let mut i: usize = 0;
        while i < n
            invariant
                i <= n,
                n == self.entries@.len(),
                self.wf(),
                *self == *old(self),
                forall|k: int| 0 <= k < i ==> self.entries@[k].0@ != name@,
            decreases n - i,
        {
            if chars_eq(&self.entries[i].0, &name) {
                let ghost pre = self.entries@;
                self.entries.set(i, (name, value));
                proof {
                    lemma_env_map_update(pre, i as int, self.entries@[i as int]);
                    assert(forall|a: int, b: int|
                        0 <= a < b < self.entries@.len() ==> self.entries@[a].0@
                            != self.entries@[b].0@);
                }
                return ;
            }
            i = i + 1;
        }
        let ghost pre = self.entries@;
        self.entries.push((name, value));
        proof {
            assert(self.entries@.drop_last() =~= pre);
            assert(forall|a: int, b: int|
                0 <= a < b < self.entries@.len() ==> self.entries@[a].0@ != self.entries@[b].0@);
        }
    }

    /// Record `name` with value `value`, replacing any earlier entry for the
    /// same name. An empty name is refused.
    pub fn insert(&mut self, name: &str, value: &str) -> (r: bool)
        requires
            old(self).wf(),
        ensures
            final(self).wf(),
            name@.len() > 0 ==> r && final(self)@ == old(self)@.insert(name@, value@),
            name@.len() == 0 ==> !r && *final(self) == *old(self),
    {
        let name_chars = crate::chars::str_chars_vec(name);
        if name_chars.len() == 0 {
            return false;
        }
        let value_chars = crate::chars::str_chars_vec(value);
        self.insert_chars(name_chars, value_chars);
        true
    }

    /// The environment's value for `name`, when it has one.
    pub fn get(&self, name: &str) -> (r: Option<String>)
        requires
            self.wf(),
        ensures
            match r {
                Option::None => !self@.contains_key(name@),
                Option::Some(v) => self@.contains_key(name@) && self@[name@] == v@,
            },
    {
        let name_chars = crate::chars::str_chars_vec(name);
        match self.get_chars(&name_chars) {
            Option::None => Option::None,
            Option::Some(v) => {
                let s = crate::chars::chars_to_string(&v, 0, v.len());
                proof {
                    assert(v@.subrange(0, v@.len() as int) =~= v@);
                }
                Option::Some(s)
            },
        }
    }
}

/// `name` resolved against `env` and `table`, as [`resolve`] states it.
pub(crate) fn resolve_chars(
    name: &Vec<char>,
    table: &SubstitutionTable,
    env: &Environment,
) -> (r: Vec<char>)
    requires
        table.wf(),
        env.wf(),
    ensures
        r@ == resolve(env@, table@, name@),
{
    match env.get_chars(name) {
        Option::Some(v) => v,
        Option::None => match table.get_chars(name) {
            Option::Some(Option::Some(v)) => v,
            Option::Some(Option::None) => Vec::new(),
            Option::None => Vec::new(),
        },
    }
}

} // verus!
