//! The command model: one process invocation, and a pipeline of them.
use vstd::prelude::*;
use crate::text::chars_of;

verus! {

/// Strict lexicographic order on texts, by character code.
pub open spec fn lex_lt(a: Seq<char>, b: Seq<char>) -> bool
    decreases a.len(),
{
    if b.len() == 0 {
        false
    } else if a.len() == 0 {
        true
    } else if a[0] != b[0] {
        a[0] < b[0]
    } else {
        lex_lt(a.skip(1), b.skip(1))
    }
}

proof fn lemma_lex_irreflexive(a: Seq<char>)
    ensures
        !lex_lt(a, a),
    decreases a.len(),
{
    if a.len() > 0 {
        lemma_lex_irreflexive(a.skip(1));
    }
}

proof fn lemma_lex_total(a: Seq<char>, b: Seq<char>)
    ensures
        a != b ==> lex_lt(a, b) || lex_lt(b, a),
    decreases a.len(),
{
    if a.len() > 0 && b.len() > 0 && a[0] == b[0] {
        lemma_lex_total(a.skip(1), b.skip(1));
        if a.skip(1) == b.skip(1) {
            assert(a =~= seq![a[0]] + a.skip(1));
            assert(b =~= seq![b[0]] + b.skip(1));
        }
    }
    if a.len() == 0 && b.len() == 0 {
        assert(a =~= b);
    }
}

proof fn lemma_lex_transitive(a: Seq<char>, b: Seq<char>, c: Seq<char>)
    requires
        lex_lt(a, b),
        lex_lt(b, c),
    ensures
        lex_lt(a, c),
    decreases a.len(),
{
    if a.len() > 0 && a[0] == b[0] && b[0] == c[0] {
        lemma_lex_transitive(a.skip(1), b.skip(1), c.skip(1));
    }
}

/// Whether `a` orders before `b`.
fn text_lt(a: &String, b: &String) -> (r: bool)
    ensures
        r == lex_lt(a@, b@),
{
    let x = chars_of(a.as_str());
    let y = chars_of(b.as_str());
    let mut i: usize = 0;
    proof {
        assert(x@.skip(0) =~= x@);
        assert(y@.skip(0) =~= y@);
    }
    while i < x.len() && i < y.len() && x[i] == y[i]
        invariant
            i <= x.len(),
            i <= y.len(),
            lex_lt(x@, y@) == lex_lt(x@.skip(i as int), y@.skip(i as int)),
        decreases x.len() - i,
    {
        proof {
            assert(x@.skip(i as int).skip(1) =~= x@.skip(i + 1));
            assert(y@.skip(i as int).skip(1) =~= y@.skip(i + 1));
        }
        i = i + 1;
    }
    if i == y.len() {
        false
    } else if i == x.len() {
        true
    } else {
        x[i] < y[i]
    }
}

/// Whether the keys of `s` are strictly increasing (so, unique).
pub open spec fn keys_sorted(s: Seq<(Seq<char>, Seq<char>)>) -> bool {
    forall|i: int, j: int| 0 <= i < j < s.len() ==> lex_lt(#[trigger] s[i].0, #[trigger] s[j].0)
}

/// The value of `key` in `s`.
pub open spec fn entry_of(s: Seq<(Seq<char>, Seq<char>)>, key: Seq<char>) -> Option<Seq<char>>
    decreases s.len(),
{
    if s.len() == 0 {
        None
    } else if s.last().0 == key {
        Some(s.last().1)
    } else {
        entry_of(s.drop_last(), key)
    }
}

proof fn lemma_entry_of_index(s: Seq<(Seq<char>, Seq<char>)>, key: Seq<char>)
    requires
        keys_sorted(s),
    ensures
        entry_of(s, key) is None <==> forall|i: int| 0 <= i < s.len() ==> s[i].0 != key,
        forall|i: int| 0 <= i < s.len() && s[i].0 == key ==> entry_of(s, key) == Some(s[i].1),
    decreases s.len(),
{
    if s.len() > 0 {
        lemma_entry_of_index(s.drop_last(), key);
        assert forall|i: int| 0 <= i < s.len() - 1 && s[i].0 == key implies s.last().0 != key by {
            assert(lex_lt(s[i].0, s[s.len() - 1].0));
            lemma_lex_irreflexive(key);
        }
        assert forall|i: int| 0 <= i < s.len() - 1 implies s.drop_last()[i] == s[i] by {}
    }
}

/// `s` with `key` bound to `value`: the entry of `key` replaced, or a new entry at the
/// place that keeps the keys increasing.
pub open spec fn insert_sorted(
    s: Seq<(Seq<char>, Seq<char>)>,
    key: Seq<char>,
    value: Seq<char>,
) -> Seq<(Seq<char>, Seq<char>)>
    decreases s.len(),
{
    if s.len() == 0 {
        seq![(key, value)]
    } else if s[0].0 == key {
        s.update(0, (key, value))
    } else if lex_lt(key, s[0].0) {
        seq![(key, value)] + s
    } else {
        seq![s[0]] + insert_sorted(s.skip(1), key, value)
    }
}

proof fn lemma_insert_sorted_at(
    s: Seq<(Seq<char>, Seq<char>)>,
    key: Seq<char>,
    value: Seq<char>,
    p: int,
)
    requires
        0 <= p <= s.len(),
        forall|i: int| 0 <= i < p ==> lex_lt(#[trigger] s[i].0, key),
        p == s.len() || !lex_lt(s[p].0, key),
    ensures
        insert_sorted(s, key, value) == if p < s.len() && s[p].0 == key {
            s.update(p, (key, value))
        } else {
            s.insert(p, (key, value))
        },
    decreases p,
{
    if p == 0 {
        if s.len() > 0 && s[0].0 != key {
            lemma_lex_total(s[0].0, key);
        }
        assert(seq![(key, value)] + s =~= s.insert(0, (key, value)));
    } else {
        lemma_lex_irreflexive(key);
        if lex_lt(key, s[0].0) {
            lemma_lex_transitive(key, s[0].0, key);
        }
        assert forall|i: int| 0 <= i < p - 1 implies lex_lt(#[trigger] s.skip(1)[i].0, key) by {
            assert(s.skip(1)[i] == s[i + 1]);
        }
        lemma_insert_sorted_at(s.skip(1), key, value, p - 1);
        if p < s.len() && s[p].0 == key {
            assert(seq![s[0]] + s.skip(1).update(p - 1, (key, value)) =~= s.update(p, (key, value)));
        } else {
            assert(seq![s[0]] + s.skip(1).insert(p - 1, (key, value)) =~= s.insert(p, (key, value)));
        }
    }
}

/// An environment: entries with unique keys, kept in increasing key order, so that
/// rendering is reproducible.
#[derive(Debug)]
pub struct EnvMap {
    entries: Vec<(String, String)>,
}

impl Default for EnvMap {
    fn default() -> (r: EnvMap)
        ensures
            r@.len() == 0,
    {
        EnvMap::new()
    }
}

impl Clone for EnvMap {
    fn clone(&self) -> (r: EnvMap)
        ensures
            r@ == self@,
    {
        proof {
            use_type_invariant(self);
        }
        let ghost s = self@;
        let mut v: Vec<(String, String)> = Vec::new();
        let mut i: usize = 0;
        while i < self.entries.len()
            invariant
                i <= self.entries.len(),
                s == pairs_view(self.entries@),
                pairs_view(v@) == s.take(i as int),
            decreases self.entries.len() - i,
        {
            let ghost before = v@;
            v.push((self.entries[i].0.clone(), self.entries[i].1.clone()));
            proof {
                assert(pairs_view(v@) =~= pairs_view(before).push(s[i as int]));
                assert(s.take(i + 1) =~= s.take(i as int).push(s[i as int]));
            }
            i = i + 1;
        }
        proof {
            assert(s.take(i as int) =~= s);
        }
        EnvMap { entries: v }
    }
}

/// The model of a list of string pairs.
pub open spec fn pairs_view(v: Seq<(String, String)>) -> Seq<(Seq<char>, Seq<char>)> {
    v.map_values(|p: (String, String)| (p.0@, p.1@))
}

impl EnvMap {
    /// The entries, in increasing key order.
    pub closed spec fn view(&self) -> Seq<(Seq<char>, Seq<char>)> {
        pairs_view(self.entries@)
    }

    #[verifier::type_invariant]
    spec fn inv(&self) -> bool {
        keys_sorted(pairs_view(self.entries@))
    }

    /// An empty environment.
    pub fn new() -> (r: EnvMap)
        ensures
            r@.len() == 0,
    {
        let r = EnvMap { entries: Vec::new() };
        proof {
            assert(pairs_view(r.entries@) =~= Seq::empty());
        }
        r
    }

    /// The entries, in increasing key order.
    pub fn entries(&self) -> (r: &Vec<(String, String)>)
        ensures
            pairs_view(r@) == self@,
            keys_sorted(self@),
    {
        proof {
            use_type_invariant(self);
        }
        &self.entries
    }

    /// The value bound to `key`.
    pub fn get(&self, key: &str) -> (r: Option<String>)
        ensures
            crate::tmpl::opt_view(r) == entry_of(self@, key@),
    {
        let k = String::from_str(key);
        let ghost s = self@;
        let mut i: usize = self.entries.len();
        proof {
            assert(s.take(i as int) =~= s);
        }
        while i > 0
            invariant
                i <= self.entries.len(),
                s == pairs_view(self.entries@),
                k@ == key@,
                entry_of(s, key@) == entry_of(s.take(i as int), key@),
            decreases i,
        {
            proof {
                assert(s.take(i as int).drop_last() =~= s.take(i - 1));
            }
            if self.entries[i - 1].0 == k {
                return Some(self.entries[i - 1].1.clone());
            }
            i = i - 1;
        }
        None
    }

    /// Binds `key` to `value`, replacing an earlier value of `key`.
    pub fn insert(&mut self, key: String, value: String)
        ensures
            final(self)@ == insert_sorted(old(self)@, key@, value@),
            keys_sorted(final(self)@),
            entry_of(final(self)@, key@) == Some(value@),
            forall|k: Seq<char>| k != key@ ==> entry_of(final(self)@, k) == entry_of(old(self)@, k),
    {
        proof {
            use_type_invariant(&*self);
        }
        let ghost s = pairs_view(self.entries@);
        let mut p: usize = 0;
        while p < self.entries.len() && text_lt(&self.entries[p].0, &key)
            invariant
                p <= self.entries.len(),
                s == pairs_view(self.entries@),
                keys_sorted(s),
                forall|i: int| 0 <= i < p ==> lex_lt(#[trigger] s[i].0, key@),
            decreases self.entries.len() - p,
        {
            p = p + 1;
        }
        let replace = p < self.entries.len() && self.entries[p].0 == key;
        let ghost kv = (key@, value@);
        let ghost t = if replace {
            s.update(p as int, kv)
        } else {
            s.insert(p as int, kv)
        };
        proof {
            lemma_insert_sorted_at(s, key@, value@, p as int);
        }
        let mut v: Vec<(String, String)> = Vec::new();
        let mut i: usize = 0;
        while i < p
            invariant
                i <= p <= self.entries.len(),
                s == pairs_view(self.entries@),
                pairs_view(v@) == s.take(i as int),
            decreases p - i,
        {
            let ghost before = v@;
            v.push((self.entries[i].0.clone(), self.entries[i].1.clone()));
            proof {
                assert(pairs_view(v@) =~= pairs_view(before).push(s[i as int]));
                assert(s.take(i + 1) =~= s.take(i as int).push(s[i as int]));
            }
            i = i + 1;
        }
        let ghost before = v@;
        v.push((key, value));
        proof {
            assert(pairs_view(v@) =~= s.take(p as int).push(kv));
        }
        let mut j: usize = if replace {
            p + 1
        } else {
            p
        };
        let ghost j0 = j;
        while j < self.entries.len()
            invariant
                j0 <= j <= self.entries.len(),
                s == pairs_view(self.entries@),
                pairs_view(v@) == s.take(p as int).push(kv) + s.subrange(j0 as int, j as int),
            decreases self.entries.len() - j,
        {
            let ghost before = v@;
            v.push((self.entries[j].0.clone(), self.entries[j].1.clone()));
            proof {
                assert(pairs_view(v@) =~= pairs_view(before).push(s[j as int]));
                assert(s.subrange(j0 as int, j + 1) =~= s.subrange(j0 as int, j as int).push(
                    s[j as int],
                ));
            }
            j = j + 1;
        }
        proof {
            assert(pairs_view(v@) =~= t);
            if !replace {
                if p < s.len() {
                    lemma_lex_total(s[p as int].0, key@);
                }
                assert forall|i: int, j: int| 0 <= i < j < t.len() implies lex_lt(
                    #[trigger] t[i].0,
                    #[trigger] t[j].0,
                ) by {
                    if j == p {
                    } else if i == p {
                        if j - 1 > p {
                            lemma_lex_transitive(key@, s[p as int].0, s[j - 1].0);
                        }
                    } else if i > p {
                        assert(lex_lt(s[i - 1].0, s[j - 1].0));
                    } else if j > p {
                        assert(lex_lt(s[i].0, s[j - 1].0));
                    }
                }
            } else {
                assert forall|i: int, j: int| 0 <= i < j < t.len() implies lex_lt(
                    #[trigger] t[i].0,
                    #[trigger] t[j].0,
                ) by {
                    assert(t[i].0 == s[i].0 && t[j].0 == s[j].0);
                }
            }
            lemma_entry_of_index(t, key@);
            assert(t[p as int] == kv);
            assert forall|k: Seq<char>| k != key@ implies entry_of(t, k) == entry_of(s, k) by {
                lemma_entry_of_index(t, k);
                lemma_entry_of_index(s, k);
                if replace {
                    assert forall|i: int| 0 <= i < s.len() && s[i].0 == k implies t[i] == s[i] by {}
                    assert forall|i: int| 0 <= i < t.len() && t[i].0 == k implies t[i] == s[i] by {}
                } else {
                    assert forall|i: int| 0 <= i < s.len() && s[i].0 == k implies t[
                        if i < p { i } else { i + 1 }
                    ] == s[i] by {}
                    assert forall|i: int| 0 <= i < t.len() && t[i].0 == k implies t[i] == s[
                        if i < p { i } else { i - 1 }
                    ] by {}
                }
            }
        }
        *self = EnvMap { entries: v };
    }
}

/// One process invocation.
#[derive(Debug, Clone, Default)]
pub struct CommandSpec {
    /// The program; rendering refuses an empty one.
    pub program: String,
    /// The arguments, in order.
    pub args: Vec<String>,
    /// The environment assignments.
    pub env: EnvMap,
    /// The working directory.
    pub cwd: Option<String>,
    pub stdin: Stdio,
    pub stdout: Stdio,
    pub stderr: Stdio,
    /// Execution hints, carried into plan renderings as annotations.
    pub flags: CmdFlags,
}

/// Execution hints of a command.
#[derive(Debug, Clone, Default)]
pub struct CmdFlags {
    /// Run the pipeline in the background (only the last command's flag counts).
    pub background: bool,
    pub timeout_ms: Option<u64>,
    pub retries: u8,
}

/// The routing of one standard stream.
#[derive(Debug, Clone)]
pub enum Stdio {
    /// Left as the shell has it.
    Inherit,
    /// Discarded (or empty, for standard input).
    Null,
    /// Redirected to a file, appending or truncating for output streams.
    File { path: String, append: bool },
    /// Connected to the neighbouring command of a pipeline.
    Pipe,
}

impl Default for Stdio {
    fn default() -> (r: Stdio)
        ensures
            r is Inherit,
    {
        Stdio::Inherit
    }
}

/// A pipeline: commands in order, each one's output feeding the next one's input.
#[derive(Debug, Clone, Default)]
pub struct PipelineSpec(pub Vec<CommandSpec>);

impl PipelineSpec {
    /// An empty pipeline.
    pub fn new() -> (r: PipelineSpec)
        ensures
            r.0@.len() == 0,
    {
        PipelineSpec(Vec::new())
    }

    /// Appends `cmd` as the last command.
    pub fn push(&mut self, cmd: CommandSpec)
        ensures
            final(self).0@ == old(self).0@.push(cmd),
    {
        self.0.push(cmd);
    }

    /// Whether the pipeline has no command.
    pub fn is_empty(&self) -> (r: bool)
        ensures
            r == (self.0@.len() == 0),
    {
        self.0.is_empty()
    }
}

} // verus!
