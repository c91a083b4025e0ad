//! Command-line inputs: arbitration ids, channel selectors and signal writes.
use vstd::prelude::*;
use crate::load::address_value;
use crate::signal_selectors::{first_index, lex_less, lex_lt, lemma_lex_asym, lemma_lex_total, lemma_lex_trans};
use crate::text::{
    has_prefix, parse_unsigned_chars, push_str, starts_with, str_chars, string_from_chars, trim, trim_chars,
};

verus! {

/// Why a command could not be run.
#[derive(Clone, Debug, PartialEq, Eq)]
pub enum CliError {
    MissingCommand,
    InvalidSetSyntax,
    CommandFailed(String),
    AssertionFailed(String),
}

/// Reads a CAN arbitration id, hexadecimal with a `0x` prefix or decimal.
pub fn parse_arb_id(value: &str) -> (r: Result<u32, CliError>)
    ensures
        match address_value(value@) {
            Some(v) => r == Ok::<u32, CliError>(v as u32),
            None => r matches Err(CliError::CommandFailed(m)) && m@ == "invalid arbitration id '"@ + value@ + "'"@,
        },
{
    match crate::load::parse_address(value) {
        Ok(v) => Ok(v),
        Err(_) => {
            let mut m = String::new();
            push_str(&mut m, "invalid arbitration id '");
            push_str(&mut m, value);
            push_str(&mut m, "'");
            assert(m@ =~= "invalid arbitration id '"@ + value@ + "'"@);
            Err(CliError::CommandFailed(m))
        },
    }
}

/// `s` ends with `suf`.
pub open spec fn has_suffix(s: Seq<char>, suf: Seq<char>) -> bool {
    suf.len() <= s.len() && s.subrange(s.len() - suf.len(), s.len() as int) == suf
}

/// The channel a `shared get` selector names: `<name>` or `<name>.*`.
pub open spec fn channel_selector(value: Seq<char>) -> Result<Seq<char>, Seq<char>> {
    let t = trim(value);
    if t.len() == 0 {
        Err("shared get requires a channel selector"@)
    } else if has_suffix(t, ".*"@) {
        if t.len() == 2 {
            Err("invalid shared selector '"@ + value + "'"@)
        } else {
            Ok(t.take(t.len() - 2))
        }
    } else {
        Ok(t)
    }
}

/// Reads the channel selector of `shared get`.
pub fn parse_shared_channel_selector(value: &str) -> (r: Result<String, CliError>)
    ensures
        match channel_selector(value@) {
            Ok(name) => r matches Ok(s) && s@ == name,
            Err(msg) => r matches Err(CliError::CommandFailed(m)) && m@ == msg,
        },
{
    let cs = str_chars(value);
    let t = trim_chars(cs.as_slice());
    proof {
        reveal_strlit(".*");
    }
    if t.len() == 0 {
        let mut m = String::new();
        push_str(&mut m, "shared get requires a channel selector");
        assert(m@ =~= "shared get requires a channel selector"@);
        return Err(CliError::CommandFailed(m));
    }
    let n = t.len();
    if n >= 2 && t[n - 2] == '.' && t[n - 1] == '*' {
        proof {
            assert(t@.subrange(n - 2, n as int) =~= ".*"@);
        }
        if n == 2 {
            let mut m = String::new();
            push_str(&mut m, "invalid shared selector '");
            push_str(&mut m, value);
            push_str(&mut m, "'");
            assert(m@ =~= "invalid shared selector '"@ + value@ + "'"@);
            return Err(CliError::CommandFailed(m));
        }
        let mut name: Vec<char> = Vec::new();
        let mut i: usize = 0;
        while i < n - 2
            invariant
                n == t@.len(),
                n > 2,
                i <= n - 2,
                name@ == t@.take(i as int),
            decreases n - 2 - i,
        {
            name.push(t[i]);
            assert(t@.take(i + 1) =~= t@.take(i as int).push(t@[i as int]));
            i = i + 1;
        }
        return Ok(string_from_chars(name.as_slice()));
    }
    proof {
        if has_suffix(t@, ".*"@) {
            assert(t@.subrange(n - 2, n as int)[0] == '.');
            assert(t@.subrange(n - 2, n as int)[1] == '*');
        }
    }
    Ok(string_from_chars(t.as_slice()))
}

/// The arguments of `set`.
#[derive(Clone, Debug, PartialEq, Eq)]
pub struct SetArgs {
    pub entries: Vec<String>,
}

/// Keys strictly increase along the sequence.
pub open spec fn keys_sorted(s: Seq<(String, String)>) -> bool {
    forall|i: int, j: int| 0 <= i < j < s.len() ==> lex_lt(#[trigger] s[i].0@, #[trigger] s[j].0@)
}

/// The map a sequence of `(key, value)` entries holds.
pub open spec fn entries_map(s: Seq<(String, String)>) -> Map<Seq<char>, Seq<char>> {
    Map::new(
        |k: Seq<char>| exists|i: int| 0 <= i < s.len() && s[i].0@ == k,
        |k: Seq<char>| s[choose|i: int| 0 <= i < s.len() && s[i].0@ == k].1@,
    )
}

proof fn lemma_entries_map_at(s: Seq<(String, String)>, i: int)
    requires
        keys_sorted(s),
        0 <= i < s.len(),
    ensures
        entries_map(s).contains_key(s[i].0@),
        entries_map(s)[s[i].0@] == s[i].1@,
{
    let j = choose|j: int| 0 <= j < s.len() && s[j].0@ == s[i].0@;
    if j < i {
        assert(lex_lt(s[j].0@, s[i].0@));
        lemma_lex_asym(s[i].0@, s[i].0@);
    } else if i < j {
        assert(lex_lt(s[i].0@, s[j].0@));
        lemma_lex_asym(s[i].0@, s[i].0@);
    }
}

/// Signal writes, by signal name, in name order.
#[derive(Clone, Debug)]
pub struct SetWrites {
    entries: Vec<(String, String)>,
}

impl View for SetWrites {
    type V = Map<Seq<char>, Seq<char>>;

    closed spec fn view(&self) -> Map<Seq<char>, Seq<char>> {
        entries_map(self.entries@)
    }
}

impl SetWrites {
    pub closed spec fn wf(&self) -> bool {
        keys_sorted(self.entries@)
    }

    pub fn new() -> (r: SetWrites)
        ensures
            r.wf(),
            r@ == Map::<Seq<char>, Seq<char>>::empty(),
    {
        let r = SetWrites { entries: Vec::new() };
        assert(r@ =~= Map::<Seq<char>, Seq<char>>::empty());
        r
    }

    /// Stores a write; a later write to the same name replaces it.
    pub fn insert(&mut self, key: String, value: String)
        requires
            old(self).wf(),
        ensures
            final(self).wf(),
            final(self)@ == old(self)@.insert(key@, value@),
    {
        let ghost s = self.entries@;
        let kc = str_chars(key.as_str());
        let mut p: usize = 0;
        while p < self.entries.len() && lex_less(str_chars(self.entries[p].0.as_str()).as_slice(), kc.as_slice())
            invariant
                s == self.entries@,
                kc@ == key@,
                p <= s.len(),
                forall|i: int| 0 <= i < p ==> lex_lt(#[trigger] s[i].0@, key@),
            decreases s.len() - p,
        {
            p = p + 1;
        }
        let ghost kv = key@;
        let ghost vv = value@;
        if p < self.entries.len() && crate::sim::validation::same_text(self.entries[p].0.as_str(), key.as_str()) {
            self.entries.set(p, (key, value));
            proof {
                let t = self.entries@;
                assert(t == s.update(p as int, t[p as int]));
                assert(keys_sorted(t)) by {
                    assert forall|i: int, j: int| 0 <= i < j < t.len() implies lex_lt(#[trigger] t[i].0@, #[trigger] t[j].0@) by {
                        if i == p {
                            assert(t[i].0@ == s[i].0@);
                        } else if j == p {
                            assert(t[j].0@ == s[j].0@);
                        }
                    }
                }
                lemma_map_replace(s, t, p as int, kv, vv);
            }
        } else {
            proof {
                if p < s.len() {
                    assert(!lex_lt(s[p as int].0@, kv));
                    lemma_lex_total(s[p as int].0@, kv);
                    assert(lex_lt(kv, s[p as int].0@));
                }
            }
            self.entries.insert(p, (key, value));
            proof {
                let t = self.entries@;
                assert forall|i: int, j: int| 0 <= i < j < t.len() implies lex_lt(#[trigger] t[i].0@, #[trigger] t[j].0@) by {
                    if j < p {
                    } else if j == p {
                    } else if i < p {
                        assert(t[j] == s[j - 1]);
                        assert(lex_lt(kv, s[p as int].0@));
                        if j - 1 > p {
                            assert(lex_lt(s[p as int].0@, s[j - 1].0@));
                            lemma_lex_trans(kv, s[p as int].0@, s[j - 1].0@);
                        }
                        lemma_lex_trans(s[i].0@, kv, s[j - 1].0@);
                    } else if i == p {
                        assert(t[j] == s[j - 1]);
                        if j - 1 > p {
                            assert(lex_lt(s[p as int].0@, s[j - 1].0@));
                            lemma_lex_trans(kv, s[p as int].0@, s[j - 1].0@);
                        }
                    } else {
                        assert(t[i] == s[i - 1] && t[j] == s[j - 1]);
                    }
                }
                lemma_map_insert(s, t, p as int, kv, vv);
            }
        }
    }

    /// The value written to a signal, if any.
    pub fn get(&self, key: &str) -> (r: Option<&String>)
        requires
            self.wf(),
        ensures
            match r {
                Some(v) => self@.contains_key(key@) && self@[key@] == v@,
                None => !self@.contains_key(key@),
            },
    {
        let mut i: usize = 0;
        while i < self.entries.len()
            invariant
                self.wf(),
                i <= self.entries@.len(),
                forall|j: int| 0 <= j < i ==> self.entries@[j].0@ != key@,
            decreases self.entries@.len() - i,
        {
            if crate::sim::validation::same_text(self.entries[i].0.as_str(), key) {
                proof {
                    lemma_entries_map_at(self.entries@, i as int);
                }
                return Some(&self.entries[i].1);
            }
            i = i + 1;
        }
        None
    }

    /// The number of signals written.
    pub fn len(&self) -> (r: usize)
        requires
            self.wf(),
        ensures
            r == self@.dom().len(),
    {
        proof {
            let s = self.entries@;
            let keys = s.map_values(|e: (String, String)| e.0@);
            assert(self@.dom() =~= keys.to_set()) by {
                assert forall|k: Seq<char>| self@.dom().contains(k) <==> keys.to_set().contains(k) by {
                    if self@.dom().contains(k) {
                        let j = choose|j: int| 0 <= j < s.len() && s[j].0@ == k;
                        assert(keys[j] == k);
                    }
                    if keys.to_set().contains(k) {
                        let j = choose|j: int| 0 <= j < keys.len() && keys[j] == k;
                        assert(s[j].0@ == k);
                    }
                }
            }
            assert(keys.no_duplicates()) by {
                assert forall|i: int, j: int| 0 <= i < keys.len() && 0 <= j < keys.len() && i != j implies keys[i] != keys[j] by {
                    if i < j {
                        assert(lex_lt(s[i].0@, s[j].0@));
                        lemma_lex_asym(s[i].0@, s[i].0@);
                    } else {
                        assert(lex_lt(s[j].0@, s[i].0@));
                        lemma_lex_asym(s[i].0@, s[i].0@);
                    }
                }
            }
            keys.unique_seq_to_set();
        }
        self.entries.len()
    }

    /// The writes in name order.
    pub fn pairs(&self) -> (r: &[(String, String)])
        requires
            self.wf(),
        ensures
            keys_sorted(r@),
            entries_map(r@) == self@,
    {
        self.entries.as_slice()
    }
}

proof fn lemma_map_replace(s: Seq<(String, String)>, t: Seq<(String, String)>, p: int, k: Seq<char>, v: Seq<char>)
    requires
        keys_sorted(s),
        keys_sorted(t),
        0 <= p < s.len(),
        t.len() == s.len(),
        s[p].0@ == k,
        t[p].0@ == k,
        t[p].1@ == v,
        forall|i: int| 0 <= i < s.len() && i != p ==> t[i] == s[i],
    ensures
        entries_map(t) == entries_map(s).insert(k, v),
{
    assert forall|a: Seq<char>| #[trigger] entries_map(t).contains_key(a) == entries_map(s).insert(k, v).contains_key(a) by {
        if exists|i: int| 0 <= i < s.len() && s[i].0@ == a {
            let i = choose|i: int| 0 <= i < s.len() && s[i].0@ == a;
            assert(t[i].0@ == a);
        }
        if exists|i: int| 0 <= i < t.len() && t[i].0@ == a {
            let i = choose|i: int| 0 <= i < t.len() && t[i].0@ == a;
            assert(s[i].0@ == a);
        }
    }
    assert forall|a: Seq<char>| #[trigger] entries_map(t).contains_key(a) implies entries_map(t)[a]
        == entries_map(s).insert(k, v)[a] by {
        let i = choose|i: int| 0 <= i < t.len() && t[i].0@ == a;
        lemma_entries_map_at(t, i);
        if i != p {
            lemma_entries_map_at(s, i);
            if a == k {
                assert(t[p].0@ == t[i].0@);
                lemma_entries_map_at(t, p);
            }
        }
    }
    assert(entries_map(t) =~= entries_map(s).insert(k, v));
}

proof fn lemma_map_insert(s: Seq<(String, String)>, t: Seq<(String, String)>, p: int, k: Seq<char>, v: Seq<char>)
    requires
        keys_sorted(s),
        keys_sorted(t),
        0 <= p <= s.len(),
        t.len() == s.len() + 1,
        t[p].0@ == k,
        t[p].1@ == v,
        forall|i: int| 0 <= i < p ==> t[i] == s[i],
        forall|i: int| p < i < t.len() ==> t[i] == s[i - 1],
    ensures
        entries_map(t) == entries_map(s).insert(k, v),
{
    assert forall|a: Seq<char>| #[trigger] entries_map(t).contains_key(a) == entries_map(s).insert(k, v).contains_key(a) by {
        if exists|i: int| 0 <= i < s.len() && s[i].0@ == a {
            let i = choose|i: int| 0 <= i < s.len() && s[i].0@ == a;
            if i < p {
                assert(t[i].0@ == a);
            } else {
                assert(t[i + 1].0@ == a);
            }
        }
        if a == k {
            assert(t[p].0@ == a);
        }
        if exists|i: int| 0 <= i < t.len() && t[i].0@ == a {
            let i = choose|i: int| 0 <= i < t.len() && t[i].0@ == a;
            if i < p {
                assert(s[i].0@ == a);
            } else if i > p {
                assert(s[i - 1].0@ == a);
            }
        }
    }
    assert forall|a: Seq<char>| #[trigger] entries_map(t).contains_key(a) implies entries_map(t)[a]
        == entries_map(s).insert(k, v)[a] by {
        let i = choose|i: int| 0 <= i < t.len() && t[i].0@ == a;
        lemma_entries_map_at(t, i);
        if i < p {
            lemma_entries_map_at(s, i);
            assert(lex_lt(t[i].0@, t[p].0@));
            if a == k {
                lemma_lex_asym(k, k);
            }
        } else if i > p {
            lemma_entries_map_at(s, i - 1);
            assert(lex_lt(t[p].0@, t[i].0@));
            if a == k {
                lemma_lex_asym(k, k);
            }
        }
    }
    assert(entries_map(t) =~= entries_map(s).insert(k, v));
}

/// An entry `<name>=<value>` split at its first '='.
pub open spec fn split_eq(e: Seq<char>) -> Option<(Seq<char>, Seq<char>)> {
    if e.contains('=') {
        let p = first_index(e, '=');
        Some((e.take(p), e.skip(p + 1)))
    } else {
        None
    }
}

/// An entry splits back into the name and value it was written from,
/// whatever the value holds, '=' included, as long as the name holds none.
pub proof fn lemma_split_eq_inverts(k: Seq<char>, v: Seq<char>)
    requires
        !k.contains('='),
    ensures
        split_eq(k + seq!['='] + v) == Some((k, v)),
{
    let e = k + seq!['='] + v;
    assert(e[k.len() as int] == '=');
    assert(e.contains('='));
    let p = first_index(e, '=');
    if p < k.len() {
        assert(e[p] == k[p]);
    }
    if p > k.len() {
        assert(e[k.len() as int] != '=');
    }
    assert(p == k.len());
    assert(e.take(p) =~= k);
    assert(e.skip(p + 1) =~= v);
}

/// The writes the first `n` `<name>=<value>` entries make, names and values
/// trimmed; `None` when an entry has no '=' or an empty name.
pub open spec fn pair_writes(entries: Seq<Seq<char>>, n: int) -> Option<Map<Seq<char>, Seq<char>>>
    decreases n,
{
    if n <= 0 {
        Some(Map::empty())
    } else {
        match pair_writes(entries, n - 1) {
            None => None,
            Some(m) => match split_eq(entries[n - 1]) {
                None => None,
                Some((k, v)) => if trim(k).len() == 0 { None } else { Some(m.insert(trim(k), trim(v))) },
            },
        }
    }
}

/// The writes of a `set` command: either one `<name> <value>` pair, or
/// `<name>=<value>` entries, later names overriding earlier ones.
pub open spec fn set_writes(entries: Seq<Seq<char>>) -> Option<Map<Seq<char>, Seq<char>>> {
    if entries.len() == 2 && !entries[0].contains('=') && !entries[1].contains('=') {
        Some(Map::empty().insert(entries[0], entries[1]))
    } else if entries.len() == 0 {
        None
    } else {
        pair_writes(entries, entries.len() as int)
    }
}

/// The texts of the arguments.
pub open spec fn arg_texts(entries: Seq<String>) -> Seq<Seq<char>> {
    entries.map_values(|e: String| e@)
}

proof fn lemma_pair_writes_none_sticks(entries: Seq<Seq<char>>, i: int, n: int)
    requires
        1 <= i <= n,
        pair_writes(entries, i) is None,
    ensures
        pair_writes(entries, n) is None,
    decreases n - i,
{
    if i < n {
        lemma_pair_writes_none_sticks(entries, i, n - 1);
    }
}

fn find_char(s: &[char], c: char) -> (r: Option<usize>)
    ensures
        match r {
            Some(p) => s@.contains(c) && p == first_index(s@, c) && p < s@.len() && s@[p as int] == c,
            None => !s@.contains(c),
        },
{
    let mut i: usize = 0;
    while i < s.len()
        invariant
            i <= s@.len(),
            forall|j: int| 0 <= j < i ==> s@[j] != c,
        decreases s.len() - i,
    {
        if s[i] == c {
            proof {
                assert(s@[i as int] == c);
                let f = first_index(s@, c);
                if f < i {
                    assert(s@[f] != c);
                }
                if f > i {
                    assert(s@[i as int] != c);
                }
            }
            return Some(i);
        }
        i = i + 1;
    }
    None
}

fn chars_to_string(s: &[char], lo: usize, hi: usize) -> (r: String)
    requires
        lo <= hi <= s@.len(),
    ensures
        r@ == s@.subrange(lo as int, hi as int),
{
    let mut r = String::new();
    let mut i: usize = lo;
    while i < hi
        invariant
            lo <= i <= hi <= s@.len(),
            r@ == s@.subrange(lo as int, i as int),
        decreases hi - i,
    {
        crate::text::string_push(&mut r, s[i]);
        assert(s@.subrange(lo as int, i + 1) =~= s@.subrange(lo as int, i as int).push(s@[i as int]));
        i = i + 1;
    }
    r
}

/// The write one `<name>=<value>` entry makes, if it is one.
pub open spec fn entry_write(e: Seq<char>) -> Option<(Seq<char>, Seq<char>)> {
    match split_eq(e) {
        None => None,
        Some((k, v)) => if trim(k).len() == 0 { None } else { Some((trim(k), trim(v))) },
    }
}

fn apply_entry(w: &mut SetWrites, entry: &str) -> (ok: bool)
    requires
        old(w).wf(),
    ensures
        final(w).wf(),
        ok == entry_write(entry@) is Some,
        ok ==> final(w)@ == old(w)@.insert(entry_write(entry@).unwrap().0, entry_write(entry@).unwrap().1),
{
    let e = str_chars(entry);
    match find_char(e.as_slice(), '=') {
        None => false,
        Some(p) => {
            assert(p < e@.len());
            let k = trim_chars(&e.as_slice()[0..p]);
            let v = trim_chars(&e.as_slice()[p + 1..e.len()]);
            proof {
                assert(e@.subrange(0, p as int) =~= e@.take(p as int));
                assert(e@.subrange(p + 1, e@.len() as int) =~= e@.skip(p + 1));
            }
            if k.len() == 0 {
                return false;
            }
            w.insert(string_from_chars(k.as_slice()), string_from_chars(v.as_slice()));
            true
        },
    }
}

proof fn lemma_pair_writes_step(entries: Seq<Seq<char>>, i: int)
    requires
        0 <= i,
    ensures
        pair_writes(entries, i + 1) == match pair_writes(entries, i) {
            None => None,
            Some(m) => match entry_write(entries[i]) {
                None => None,
                Some((k, v)) => Some(m.insert(k, v)),
            },
        },
{
}

/// Reads the writes of a `set` command.
pub fn parse_set_entries(args: &SetArgs) -> (r: Result<SetWrites, CliError>)
    ensures
        match set_writes(arg_texts(args.entries@)) {
            Some(m) => r matches Ok(w) && w.wf() && w@ == m,
            None => r == Err::<SetWrites, CliError>(CliError::InvalidSetSyntax),
        },
{
    let ghost texts = arg_texts(args.entries@);
    let n = args.entries.len();
    if n == 2 {
        let a = str_chars(args.entries[0].as_str());
        let b = str_chars(args.entries[1].as_str());
        proof {
            assert(texts[0] == a@ && texts[1] == b@);
        }
        if find_char(a.as_slice(), '=').is_none() && find_char(b.as_slice(), '=').is_none() {
            let mut w = SetWrites::new();
            w.insert(args.entries[0].clone(), args.entries[1].clone());
            return Ok(w);
        }
    }
    if n == 0 {
        return Err(CliError::InvalidSetSyntax);
    }
    let ghost target = pair_writes(texts, n as int);
    proof {
        assert(texts.len() == n);
        assert(set_writes(texts) == target);
    }
    let mut w = SetWrites::new();
    let mut i: usize = 0;
    while i < n
        invariant
            n == args.entries@.len(),
            texts == arg_texts(args.entries@),
            i <= n,
            w.wf(),
            pair_writes(texts, i as int) == Some(w@),
            set_writes(texts) == target,
            target == pair_writes(texts, n as int),
        decreases n - i,
    {
        let ok = apply_entry(&mut w, args.entries[i].as_str());
        proof {
            assert(texts[i as int] == args.entries@[i as int]@);
            lemma_pair_writes_step(texts, i as int);
        }
        if !ok {
            proof {
                lemma_pair_writes_none_sticks(texts, i + 1, n as int);
            }
            return Err(CliError::InvalidSetSyntax);
        }
        i = i + 1;
    }
    Ok(w)
}

/// An env member `<instance>` (on the default bus or channel) or `<instance>:<name>`.
pub open spec fn env_member(member: Seq<char>, default_name: Seq<char>) -> Result<(Seq<char>, Seq<char>), Seq<char>> {
    if member.contains(':') {
        let p = first_index(member, ':');
        let session = member.take(p);
        let name = member.skip(p + 1);
        if session.len() == 0 || name.len() == 0 {
            Err("invalid env bus member '"@ + member + "'"@)
        } else {
            Ok((session, name))
        }
    } else if member.len() == 0 {
        Err("empty env bus member"@)
    } else {
        Ok((member, default_name))
    }
}

/// Reads an env member.
pub fn parse_env_member(member: &str, default_bus_name: &str) -> (r: Result<(String, String), CliError>)
    ensures
        match env_member(member@, default_bus_name@) {
            Ok((a, b)) => r matches Ok((x, y)) && x@ == a && y@ == b,
            Err(m) => r matches Err(CliError::CommandFailed(e)) && e@ == m,
        },
{
    let cs = str_chars(member);
    match find_char(cs.as_slice(), ':') {
        Some(p) => {
            assert(p < cs.len());
            let session = chars_to_string(cs.as_slice(), 0, p);
            let name = chars_to_string(cs.as_slice(), p + 1, cs.len());
            proof {
                assert(cs@.subrange(0, p as int) =~= cs@.take(p as int));
                assert(cs@.subrange(p + 1, cs@.len() as int) =~= cs@.skip(p + 1));
            }
            if session.as_str().is_empty() || name.as_str().is_empty() {
                let mut m = String::new();
                push_str(&mut m, "invalid env bus member '");
                push_str(&mut m, member);
                push_str(&mut m, "'");
                assert(m@ =~= "invalid env bus member '"@ + member@ + "'"@);
                return Err(CliError::CommandFailed(m));
            }
            Ok((session, name))
        },
        None => {
            if cs.len() == 0 {
                let mut m = String::new();
                push_str(&mut m, "empty env bus member");
                assert(m@ =~= "empty env bus member"@);
                return Err(CliError::CommandFailed(m));
            }
            let mut a = String::new();
            push_str(&mut a, member);
            let mut b = String::new();
            push_str(&mut b, default_bus_name);
            assert(a@ =~= member@);
            assert(b@ =~= default_bus_name@);
            Ok((a, b))
        },
    }
}

/// The names joined with ", ".
pub open spec fn joined(names: Seq<Seq<char>>) -> Seq<char>
    decreases names.len(),
{
    if names.len() == 0 {
        Seq::empty()
    } else if names.len() == 1 {
        names[0]
    } else {
        joined(names.drop_last()) + ", "@ + names.last()
    }
}

/// Whether a recipe may run on an instance in `instance_env`, given the envs it allows.
pub open spec fn allowed_env_outcome(instance_name: Seq<char>, instance_env: Option<Seq<char>>, allowed: Seq<Seq<char>>) -> Result<(), Seq<char>> {
    match instance_env {
        Some(e) => if allowed.contains(e) {
            Ok(())
        } else {
            Err("recipe only allowed in envs ["@ + joined(allowed) + "], but instance '"@ + instance_name
                + "' is in env '"@ + e + "'"@)
        },
        None => Err("recipe only allowed in envs ["@ + joined(allowed) + "], but instance '"@ + instance_name
            + "' is not attached to any env"@),
    }
}

fn join_names(names: &[String]) -> (r: String)
    ensures
        r@ == joined(arg_texts(names@)),
{
    let mut r = String::new();
    let mut i: usize = 0;
    while i < names.len()
        invariant
            i <= names@.len(),
            r@ == joined(arg_texts(names@).take(i as int)),
        decreases names@.len() - i,
    {
        proof {
            assert(arg_texts(names@).take(i + 1).drop_last() =~= arg_texts(names@).take(i as int));
        }
        if i > 0 {
            push_str(&mut r, ", ");
        }
        push_str(&mut r, names[i].as_str());
        proof {
            if i == 0 {
                assert(r@ =~= joined(arg_texts(names@).take(1)));
            } else {
                assert(r@ =~= joined(arg_texts(names@).take(i + 1)));
            }
        }
        i = i + 1;
    }
    assert(arg_texts(names@).take(names@.len() as int) =~= arg_texts(names@));
    r
}

/// Refuses a recipe for an instance outside the envs it allows.
pub fn validate_allowed_env(instance_name: &str, instance_env: Option<&str>, allowed_envs: &[String]) -> (r: Result<(), CliError>)
    ensures
        match allowed_env_outcome(instance_name@, match instance_env { Some(e) => Some(e@), None => None }, arg_texts(allowed_envs@)) {
            Ok(()) => r is Ok,
            Err(m) => r matches Err(CliError::CommandFailed(e)) && e@ == m,
        },
{
    let allowed = join_names(allowed_envs);
    match instance_env {
        Some(env_name) => {
            let mut i: usize = 0;
            while i < allowed_envs.len()
                invariant
                    i <= allowed_envs@.len(),
                    instance_env == Some(env_name),
                    forall|j: int| 0 <= j < i ==> allowed_envs@[j]@ != env_name@,
                decreases allowed_envs@.len() - i,
            {
                if crate::sim::validation::same_text(allowed_envs[i].as_str(), env_name) {
                    proof {
                        assert(arg_texts(allowed_envs@)[i as int] == env_name@);
                        assert(arg_texts(allowed_envs@).contains(env_name@));
                    }
                    return Ok(());
                }
                i = i + 1;
            }
            proof {
                if arg_texts(allowed_envs@).contains(env_name@) {
                    let j = choose|j: int| 0 <= j < arg_texts(allowed_envs@).len() && arg_texts(allowed_envs@)[j] == env_name@;
                    assert(allowed_envs@[j]@ == env_name@);
                }
            }
            let mut m = String::new();
            push_str(&mut m, "recipe only allowed in envs [");
            push_str(&mut m, allowed.as_str());
            push_str(&mut m, "], but instance '");
            push_str(&mut m, instance_name);
            push_str(&mut m, "' is in env '");
            push_str(&mut m, env_name);
            push_str(&mut m, "'");
            Err(CliError::CommandFailed(m))
        },
        None => {
            let mut m = String::new();
            push_str(&mut m, "recipe only allowed in envs [");
            push_str(&mut m, allowed.as_str());
            push_str(&mut m, "], but instance '");
            push_str(&mut m, instance_name);
            push_str(&mut m, "' is not attached to any env");
            Err(CliError::CommandFailed(m))
        },
    }
}

/// Which comparators and options an assert step sets.
#[derive(Clone, Copy, Debug, PartialEq, Eq)]
pub struct AssertPresence {
    pub eq: bool,
    pub gt: bool,
    pub lt: bool,
    pub gte: bool,
    pub lte: bool,
    pub approx: bool,
    pub tolerance: bool,
}

/// How many comparators an assert step sets.
pub open spec fn comparator_count(a: AssertPresence) -> int {
    (if a.eq { 1int } else { 0 }) + (if a.gt { 1int } else { 0 }) + (if a.lt { 1int } else { 0 }) + (if a.gte { 1int } else { 0 })
        + (if a.lte { 1int } else { 0 }) + (if a.approx { 1int } else { 0 })
}

/// Why an assert step is malformed, if it is.
pub open spec fn assert_spec_fault(signal: Seq<char>, a: AssertPresence) -> Option<Seq<char>> {
    if comparator_count(a) == 0 {
        Some("assert step for '"@ + signal + "' must define one comparator (eq/gt/lt/gte/lte/approx)"@)
    } else if comparator_count(a) > 1 {
        Some("assert step for '"@ + signal + "' defines multiple comparators; use exactly one"@)
    } else if a.approx && !a.tolerance {
        Some("assert approx for '"@ + signal + "' must define an explicit tolerance"@)
    } else if !a.approx && a.tolerance {
        Some("assert tolerance for '"@ + signal + "' is only valid with approx"@)
    } else {
        None
    }
}

/// Checks an assert step: exactly one comparator, and a tolerance exactly with `approx`.
pub fn validate_assert_spec(signal: &str, assert: &AssertPresence) -> (r: Result<(), String>)
    ensures
        match assert_spec_fault(signal@, *assert) {
            None => r is Ok,
            Some(m) => r matches Err(e) && e@ == m,
        },
{
    let mut count: u32 = 0;
    if assert.eq {
        count = count + 1;
    }
    if assert.gt {
        count = count + 1;
    }
    if assert.lt {
        count = count + 1;
    }
    if assert.gte {
        count = count + 1;
    }
    if assert.lte {
        count = count + 1;
    }
    if assert.approx {
        count = count + 1;
    }
    let mut m = String::new();
    if count == 0 {
        push_str(&mut m, "assert step for '");
        push_str(&mut m, signal);
        push_str(&mut m, "' must define one comparator (eq/gt/lt/gte/lte/approx)");
        return Err(m);
    }
    if count > 1 {
        push_str(&mut m, "assert step for '");
        push_str(&mut m, signal);
        push_str(&mut m, "' defines multiple comparators; use exactly one");
        return Err(m);
    }
    if assert.approx && !assert.tolerance {
        push_str(&mut m, "assert approx for '");
        push_str(&mut m, signal);
        push_str(&mut m, "' must define an explicit tolerance");
        return Err(m);
    }
    if !assert.approx && assert.tolerance {
        push_str(&mut m, "assert tolerance for '");
        push_str(&mut m, signal);
        push_str(&mut m, "' is only valid with approx");
        return Err(m);
    }
    Ok(())
}


/// The text a `CliError` reads as.
pub open spec fn cli_error_text(e: CliError) -> Seq<char> {
    match e {
        CliError::MissingCommand => "missing command; run --help for usage"@,
        CliError::InvalidSetSyntax => "invalid set syntax; use '<signal> <value>' or '<signal>=<value>' pairs"@,
        CliError::CommandFailed(m) => "command failed: "@ + m@,
        CliError::AssertionFailed(m) => "assertion failed: "@ + m@,
    }
}

impl CliError {
    /// The text the error reads as.
    pub fn message(&self) -> (r: String)
        ensures
            r@ == cli_error_text(*self),
    {
        let mut r = String::new();
        match self {
            CliError::MissingCommand => push_str(&mut r, "missing command; run --help for usage"),
            CliError::InvalidSetSyntax => push_str(&mut r, "invalid set syntax; use '<signal> <value>' or '<signal>=<value>' pairs"),
            CliError::CommandFailed(m) => {
                push_str(&mut r, "command failed: ");
                push_str(&mut r, m.as_str());
            },
            CliError::AssertionFailed(m) => {
                push_str(&mut r, "assertion failed: ");
                push_str(&mut r, m.as_str());
            },
        }
        assert(r@ =~= cli_error_text(*self));
        r
    }
}


/// The env of the first running instance named `name`: `None` when none
/// runs, `Some(None)` when it runs outside any env.
#[verifier::opaque]
pub open spec fn running_env(running: Seq<(String, Option<String>)>, name: Seq<char>) -> Option<Option<Seq<char>>> {
    if exists|i: int| 0 <= i < running.len() && running[i].0@ == name {
        let i = choose|i: int| 0 <= i < running.len() && running[i].0@ == name
            && forall|j: int| 0 <= j < i ==> running[j].0@ != name;
        Some(match running[i].1 {
            Some(e) => Some(e@),
            None => None,
        })
    } else {
        None
    }
}

/// Whether instance `name` may run the recipe: it runs, and when the recipe
/// names envs, it is in one of them.
pub open spec fn target_outcome(
    running: Seq<(String, Option<String>)>,
    name: Seq<char>,
    allowed: Seq<Seq<char>>,
    missing: Seq<char>,
) -> Result<(), Seq<char>> {
    match running_env(running, name) {
        None => Err(missing),
        Some(env) => if allowed.len() == 0 { Ok(()) } else { allowed_env_outcome(name, env, allowed) },
    }
}

/// The message for a recipe target that is not running.
pub open spec fn default_not_running(name: Seq<char>) -> Seq<char> {
    "recipe target instance '"@ + name + "' is not running"@
}

/// The message for an instance a recipe needs that is not running.
pub open spec fn required_not_running(name: Seq<char>) -> Seq<char> {
    "recipe requires instance '"@ + name + "' to be running"@
}

/// The first fault among the first `n` instances a recipe needs.
pub open spec fn required_outcome(
    running: Seq<(String, Option<String>)>,
    instances: Seq<Seq<char>>,
    allowed: Seq<Seq<char>>,
    n: int,
) -> Result<(), Seq<char>>
    decreases n,
{
    if n <= 0 {
        Ok(())
    } else {
        match required_outcome(running, instances, allowed, n - 1) {
            Err(m) => Err(m),
            Ok(()) => target_outcome(running, instances[n - 1], allowed, required_not_running(instances[n - 1])),
        }
    }
}

/// Finds the first running instance named `name` and gives its env.
fn find_running(running: &[(String, Option<String>)], name: &str) -> (r: Option<Option<String>>)
    ensures
        match running_env(running@, name@) {
            None => r is None,
            Some(env) => r matches Some(e) && env == match e {
                Some(x) => Some(x@),
                None => None::<Seq<char>>,
            },
        },
{
    let mut i: usize = 0;
    while i < running.len()
        invariant
            i <= running@.len(),
            forall|j: int| 0 <= j < i ==> running@[j].0@ != name@,
        decreases running@.len() - i,
    {
        if crate::sim::validation::same_text(running[i].0.as_str(), name) {
            proof {
                reveal(running_env);
                let c = choose|c: int| 0 <= c < running@.len() && running@[c].0@ == name@
                    && forall|j: int| 0 <= j < c ==> running@[j].0@ != name@;
                assert(0 <= i < running@.len() && running@[i as int].0@ == name@
                    && forall|j: int| 0 <= j < i ==> running@[j].0@ != name@);
                if c < i {
                    assert(running@[c].0@ != name@);
                } else if c > i {
                    assert(running@[i as int].0@ != name@);
                }
            }
            return Some(match &running[i].1 {
                Some(e) => Some(e.clone()),
                None => None,
            });
        }
        i = i + 1;
    }
    proof {
        reveal(running_env);
    }
    None
}

/// Checks one recipe target against the running instances.
fn check_target(
    running: &[(String, Option<String>)],
    name: &str,
    allowed_envs: &[String],
    missing: String,
) -> (r: Result<(), CliError>)
    ensures
        match target_outcome(running@, name@, arg_texts(allowed_envs@), missing@) {
            Ok(()) => r is Ok,
            Err(m) => r matches Err(CliError::CommandFailed(e)) && e@ == m,
        },
{
    match find_running(running, name) {
        None => Err(CliError::CommandFailed(missing)),
        Some(env) => {
            if allowed_envs.len() == 0 {
                return Ok(());
            }
            match env {
                Some(e) => validate_allowed_env(name, Some(e.as_str()), allowed_envs),
                None => validate_allowed_env(name, None, allowed_envs),
            }
        },
    }
}

/// Checks that a recipe can run: its target instance runs, so does every
/// instance it needs, and when it names envs each of them is in one.
pub fn validate_recipe_targets(
    running: &[(String, Option<String>)],
    default_instance: &str,
    allowed_envs: &[String],
    instances: &[String],
) -> (r: Result<(), CliError>)
    ensures
        match target_outcome(running@, default_instance@, arg_texts(allowed_envs@), default_not_running(default_instance@)) {
            Err(m) => r matches Err(CliError::CommandFailed(e)) && e@ == m,
            Ok(()) => match required_outcome(running@, arg_texts(instances@), arg_texts(allowed_envs@), instances@.len() as int) {
                Ok(()) => r is Ok,
                Err(m) => r matches Err(CliError::CommandFailed(e)) && e@ == m,
            },
        },
{
    let mut missing = String::new();
    push_str(&mut missing, "recipe target instance '");
    push_str(&mut missing, default_instance);
    push_str(&mut missing, "' is not running");
    assert(missing@ =~= default_not_running(default_instance@));
    match check_target(running, default_instance, allowed_envs, missing) {
        Ok(()) => {},
        Err(e) => {
            return Err(e);
        },
    }
    let ghost texts = arg_texts(instances@);
    let mut k: usize = 0;
    while k < instances.len()
        invariant
            k <= instances@.len(),
            texts == arg_texts(instances@),
            target_outcome(running@, default_instance@, arg_texts(allowed_envs@), default_not_running(default_instance@)) is Ok,
            required_outcome(running@, texts, arg_texts(allowed_envs@), k as int) is Ok,
        decreases instances@.len() - k,
    {
        let name = instances[k].as_str();
        let mut missing = String::new();
        push_str(&mut missing, "recipe requires instance '");
        push_str(&mut missing, name);
        push_str(&mut missing, "' to be running");
        assert(missing@ =~= required_not_running(texts[k as int]));
        proof {
            assert(required_outcome(running@, texts, arg_texts(allowed_envs@), k + 1)
                == target_outcome(running@, texts[k as int], arg_texts(allowed_envs@), required_not_running(texts[k as int])));
        }
        match check_target(running, name, allowed_envs, missing) {
            Ok(()) => {},
            Err(e) => {
                proof {
                    assert(required_outcome(running@, texts, arg_texts(allowed_envs@), k + 1) is Err);
                    lemma_required_err_sticks(running@, texts, arg_texts(allowed_envs@), k + 1, instances@.len() as int);
                }
                return Err(e);
            },
        }
        k = k + 1;
    }
    Ok(())
}

/// Once a needed instance failed, the outcome stays that failure.
proof fn lemma_required_err_sticks(
    running: Seq<(String, Option<String>)>,
    instances: Seq<Seq<char>>,
    allowed: Seq<Seq<char>>,
    k: int,
    n: int,
)
    requires
        0 <= k <= n,
        required_outcome(running, instances, allowed, k) is Err,
    ensures
        required_outcome(running, instances, allowed, n) == required_outcome(running, instances, allowed, k),
    decreases n - k,
{
    if n > k {
        lemma_required_err_sticks(running, instances, allowed, k, n - 1);
    }
}

/// A copy of a string.
fn copy_string(s: &str) -> (r: String)
    ensures
        r@ == s@,
{
    let mut r = String::new();
    push_str(&mut r, s);
    assert(r@ =~= s@);
    r
}

/// The instance a recipe step runs against: its own, else the recipe's default.
pub fn resolve_instance(default_instance: &str, instance: &Option<String>) -> (r: String)
    ensures
        r@ == match instance {
            Some(own) => own@,
            None => default_instance@,
        },
{
    match instance {
        Some(own) => copy_string(own.as_str()),
        None => copy_string(default_instance),
    }
}

/// The instance a step compiles to: its own, else the one it inherits from
/// the step that encloses it; none where neither names one.
pub fn inherit_instance(own: &Option<String>, inherited: Option<&str>) -> (r: Option<String>)
    ensures
        match own {
            Some(o) => r matches Some(x) && x@ == o@,
            None => match inherited {
                Some(h) => r matches Some(x) && x@ == h@,
                None => r is None,
            },
        },
{
    match own {
        Some(o) => Some(copy_string(o.as_str())),
        None => match inherited {
            Some(h) => Some(copy_string(h)),
            None => None,
        },
    }
}

} // verus!
