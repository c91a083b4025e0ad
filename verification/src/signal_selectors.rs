//! The env-wide catalog of signals, named `<instance>:<signal>`, and the
//! selectors that pick signals out of it.
use vstd::prelude::*;
use crate::sim::types::{SignalMeta, SignalType};
use crate::text::{all_digits, dec, digit_of_char, digit_value, digits_value, has_prefix, parse_unsigned, unsigned_digits, push_chars, push_dec, push_str, starts_with, str_chars, string_from_chars};
use crate::sim::validation::{first_fault_at, same_text};

verus! {

/// Code-point lexicographic order, the order of `str` comparison.
pub open spec fn lex_lt(a: Seq<char>, b: Seq<char>) -> bool
    decreases a.len(),
{
    if a.len() == 0 {
        b.len() > 0
    } else if b.len() == 0 {
        false
    } else if a[0] < b[0] {
        true
    } else if a[0] > b[0] {
        false
    } else {
        lex_lt(a.drop_first(), b.drop_first())
    }
}

pub proof fn lemma_lex_asym(a: Seq<char>, b: Seq<char>)
    ensures
        !(lex_lt(a, b) && lex_lt(b, a)),
    decreases a.len(),
{
    if a.len() > 0 && b.len() > 0 && a[0] == b[0] {
        lemma_lex_asym(a.drop_first(), b.drop_first());
    }
}

pub proof fn lemma_lex_total(a: Seq<char>, b: Seq<char>)
    ensures
        lex_lt(a, b) || lex_lt(b, a) || a == b,
    decreases a.len(),
{
    if a.len() > 0 && b.len() > 0 {
        if a[0] == b[0] {
            lemma_lex_total(a.drop_first(), b.drop_first());
            if a.drop_first() == b.drop_first() {
                assert(a =~= seq![a[0]] + a.drop_first());
                assert(b =~= seq![b[0]] + b.drop_first());
            }
        }
    } else if a.len() == 0 && b.len() == 0 {
        assert(a =~= b);
    }
}

pub proof fn lemma_lex_trans(a: Seq<char>, b: Seq<char>, c: Seq<char>)
    requires
        lex_lt(a, b),
        lex_lt(b, c),
    ensures
        lex_lt(a, c),
    decreases a.len(),
{
    if a.len() > 0 && b.len() > 0 && c.len() > 0 && a[0] == b[0] && b[0] == c[0] {
        lemma_lex_trans(a.drop_first(), b.drop_first(), c.drop_first());
    }
}

pub fn lex_less(a: &[char], b: &[char]) -> (r: bool)
    ensures
        r == lex_lt(a@, b@),
{
    let mut i: usize = 0;
    proof {
        assert(a@.skip(0) =~= a@);
        assert(b@.skip(0) =~= b@);
    }
    while i < a.len() && i < b.len()
        invariant
            i <= a@.len(),
            i <= b@.len(),
            lex_lt(a@, b@) == lex_lt(a@.skip(i as int), b@.skip(i as int)),
        decreases a.len() - i,
    {
        let x = a[i];
        let y = b[i];
        if x < y {
            return true;
        }
        if x > y {
            return false;
        }
        proof {
            assert(a@.skip(i as int).drop_first() =~= a@.skip(i + 1));
            assert(b@.skip(i as int).drop_first() =~= b@.skip(i + 1));
        }
        i = i + 1;
    }
    i < b.len()
}

/// One signal of one instance, with its env-wide name.
#[derive(Clone, Debug)]
pub struct EnvSignalCatalogEntry {
    pub instance: String,
    pub local_id: u32,
    pub signal_name: String,
    pub qualified_name: String,
    pub signal_type: SignalType,
    pub units: Option<String>,
}

/// `out` is `input` ordered by qualified name, entries with equal names kept
/// in input order; `perm[k]` is the input position of `out[k]`.
pub open spec fn stable_sorted_by_name(
    input: Seq<EnvSignalCatalogEntry>,
    out: Seq<EnvSignalCatalogEntry>,
    perm: Seq<int>,
) -> bool {
    &&& out.len() == input.len()
    &&& perm.len() == out.len()
    &&& forall|k: int| 0 <= k < out.len() ==> 0 <= #[trigger] perm[k] < input.len() && out[k] == input[perm[k]]
    &&& forall|k1: int, k2: int| 0 <= k1 < k2 < out.len() ==> #[trigger] perm[k1] != #[trigger] perm[k2]
    &&& forall|k1: int, k2: int|
        0 <= k1 < k2 < out.len() ==> !lex_lt(#[trigger] out[k2].qualified_name@, #[trigger] out[k1].qualified_name@)
    &&& forall|k1: int, k2: int|
        0 <= k1 < k2 < out.len() && (#[trigger] out[k1]).qualified_name@ == (#[trigger] out[k2]).qualified_name@
            ==> perm[k1] < perm[k2]
}

/// Orders entries by qualified name, keeping the input order among equal names.
pub fn sort_by_qualified_name(entries: Vec<EnvSignalCatalogEntry>) -> (out: Vec<EnvSignalCatalogEntry>)
    ensures
        exists|perm: Seq<int>| stable_sorted_by_name(entries@, out@, perm),
{
    let ghost input = entries@;
    let mut rest = entries;
    let mut out: Vec<EnvSignalCatalogEntry> = Vec::new();
    let mut keys: Vec<Vec<char>> = Vec::new();
    let ghost mut perm: Seq<int> = Seq::empty();
    let mut i: usize = 0;
    while rest.len() > 0
        invariant
            i + rest@.len() == input.len(),
            input == entries@,
            rest@ == input.skip(i as int),
            keys@.len() == out@.len(),
            forall|k: int| 0 <= k < out@.len() ==> #[trigger] keys@[k]@ == out@[k].qualified_name@,
            perm.len() == out@.len(),
            out@.len() == i,
            forall|k: int| 0 <= k < out@.len() ==> 0 <= #[trigger] perm[k] < i && out@[k] == input[perm[k]],
            forall|k1: int, k2: int| 0 <= k1 < k2 < out@.len() ==> #[trigger] perm[k1] != #[trigger] perm[k2],
            forall|k1: int, k2: int|
                0 <= k1 < k2 < out@.len() ==> !lex_lt(#[trigger] out@[k2].qualified_name@, #[trigger] out@[k1].qualified_name@),
            forall|k1: int, k2: int|
                0 <= k1 < k2 < out@.len() && (#[trigger] out@[k1]).qualified_name@ == (#[trigger] out@[k2]).qualified_name@
                    ==> perm[k1] < perm[k2],
        decreases rest@.len(),
    {
        let x = rest.remove(0);
        proof {
            assert(i < input.len());
            assert(x == input[i as int]);
            assert(rest@ =~= input.skip(i + 1));
        }
        let xk = str_chars(x.qualified_name.as_str());
        let mut p: usize = 0;
        while p < out.len() && !lex_less(xk.as_slice(), keys[p].as_slice())
            invariant
                p <= out@.len(),
                xk@ == x.qualified_name@,
                keys@.len() == out@.len(),
                forall|k: int| 0 <= k < out@.len() ==> #[trigger] keys@[k]@ == out@[k].qualified_name@,
                forall|k: int| 0 <= k < p ==> !lex_lt(x.qualified_name@, #[trigger] out@[k].qualified_name@),
            decreases out@.len() - p,
        {
            p = p + 1;
        }
        let ghost old_out = out@;
        let ghost old_keys = keys@;
        let ghost old_perm = perm;
        proof {
            assert forall|k: int| p <= k < old_out.len() implies lex_lt(x.qualified_name@, #[trigger] old_out[k].qualified_name@) by {
                assert(lex_lt(x.qualified_name@, old_out[p as int].qualified_name@));
                if k > p {
                    assert(!lex_lt(old_out[k].qualified_name@, old_out[p as int].qualified_name@));
                    lemma_lex_total(old_out[k].qualified_name@, old_out[p as int].qualified_name@);
                    if lex_lt(old_out[p as int].qualified_name@, old_out[k].qualified_name@) {
                        lemma_lex_trans(x.qualified_name@, old_out[p as int].qualified_name@, old_out[k].qualified_name@);
                    }
                }
            }
        }
        out.insert(p, x);
        keys.insert(p, xk);
        proof {
            perm = old_perm.insert(p as int, i as int);
            let n = out@;
            assert(n == old_out.insert(p as int, x));
            assert forall|k: int| 0 <= k < n.len() implies #[trigger] keys@[k]@ == n[k].qualified_name@ by {
                if k < p {
                } else if k > p {
                    assert(keys@[k] == old_keys[k - 1]);
                }
            }
            assert forall|k: int| 0 <= k < n.len() implies 0 <= #[trigger] perm[k] < i + 1 && n[k] == input[perm[k]] by {
                if k < p {
                    assert(perm[k] == old_perm[k]);
                } else if k > p {
                    assert(perm[k] == old_perm[k - 1]);
                }
            }
            assert forall|k1: int, k2: int| 0 <= k1 < k2 < n.len() implies #[trigger] perm[k1] != #[trigger] perm[k2] by {
                if k1 < p && k2 < p {
                } else if k1 < p && k2 == p {
                    assert(perm[k1] == old_perm[k1]);
                } else if k1 < p {
                    assert(perm[k1] == old_perm[k1] && perm[k2] == old_perm[k2 - 1]);
                } else if k1 == p {
                    assert(perm[k2] == old_perm[k2 - 1]);
                } else {
                    assert(perm[k1] == old_perm[k1 - 1] && perm[k2] == old_perm[k2 - 1]);
                }
            }
            assert forall|k1: int, k2: int|
                0 <= k1 < k2 < n.len() implies !lex_lt(#[trigger] n[k2].qualified_name@, #[trigger] n[k1].qualified_name@) by {
                if k2 < p {
                } else if k2 == p {
                    assert(!lex_lt(x.qualified_name@, old_out[k1].qualified_name@));
                } else if k1 < p {
                    assert(n[k2] == old_out[k2 - 1]);
                    assert(k2 - 1 >= p);
                    assert(lex_lt(x.qualified_name@, old_out[k2 - 1].qualified_name@));
                    assert(!lex_lt(x.qualified_name@, old_out[k1].qualified_name@));
                    if lex_lt(old_out[k2 - 1].qualified_name@, old_out[k1].qualified_name@) {
                        lemma_lex_trans(x.qualified_name@, old_out[k2 - 1].qualified_name@, old_out[k1].qualified_name@);
                    }
                } else if k1 == p {
                    assert(lex_lt(x.qualified_name@, old_out[k2 - 1].qualified_name@));
                    lemma_lex_asym(x.qualified_name@, old_out[k2 - 1].qualified_name@);
                } else {
                    assert(n[k1] == old_out[k1 - 1] && n[k2] == old_out[k2 - 1]);
                }
            }
            assert forall|k1: int, k2: int|
                0 <= k1 < k2 < n.len() && (#[trigger] n[k1]).qualified_name@ == (#[trigger] n[k2]).qualified_name@
                    implies perm[k1] < perm[k2] by {
                if k2 < p {
                } else if k2 == p {
                    assert(perm[k1] == old_perm[k1]);
                } else if k1 < p {
                    assert(perm[k1] == old_perm[k1] && perm[k2] == old_perm[k2 - 1]);
                    assert(n[k2] == old_out[k2 - 1]);
                } else if k1 == p {
                    assert(n[k2] == old_out[k2 - 1]);
                    assert(lex_lt(x.qualified_name@, old_out[k2 - 1].qualified_name@));
                    assert(x.qualified_name@ == n[k2].qualified_name@);
                    lemma_lex_asym(x.qualified_name@, x.qualified_name@);
                } else {
                    assert(perm[k1] == old_perm[k1 - 1] && perm[k2] == old_perm[k2 - 1]);
                    assert(n[k1] == old_out[k1 - 1] && n[k2] == old_out[k2 - 1]);
                }
            }
        }
        i = out.len();
    }
    proof {
        assert(stable_sorted_by_name(input, out@, perm));
    }
    out
}

/// The earlier entry a qualified name collides with.
pub open spec fn collision(s: Seq<EnvSignalCatalogEntry>, k: int) -> int {
    choose|j: int| 0 <= j < k && s[j].qualified_name@ == s[k].qualified_name@
}

/// The complaint about sorted entry `k`, given that the entries before it passed.
pub open spec fn entry_fault(s: Seq<EnvSignalCatalogEntry>, k: int) -> Option<Seq<char>> {
    let e = s[k];
    if e.signal_name@.contains(':') {
        Some("signal '"@ + e.signal_name@ + "' in instance '"@ + e.instance@ + "' contains reserved ':'"@)
    } else if !has_prefix(e.qualified_name@, e.instance@.push(':')) {
        Some("invalid qualified signal name '"@ + e.qualified_name@ + "' for instance '"@ + e.instance@ + "'"@)
    } else if exists|j: int| 0 <= j < k && s[j].qualified_name@ == e.qualified_name@ {
        Some(
            "duplicate env qualified signal '"@ + e.qualified_name@ + "'; entries "@ + dec(collision(s, k) as nat)
                + " and "@ + dec(k as nat) + " collide"@,
        )
    } else {
        None
    }
}

/// The complaints about each sorted entry.
pub open spec fn entry_faults(s: Seq<EnvSignalCatalogEntry>) -> Seq<Option<Seq<char>>> {
    Seq::new(s.len(), |k: int| entry_fault(s, k))
}

/// No sorted entry draws a complaint.
pub open spec fn entries_ok(s: Seq<EnvSignalCatalogEntry>) -> bool {
    forall|k: int| 0 <= k < s.len() ==> (#[trigger] entry_fault(s, k)) is None
}

/// The signals of an env, ordered by qualified name.
#[derive(Clone, Debug)]
pub struct EnvSignalCatalog {
    entries: Vec<EnvSignalCatalogEntry>,
}

/// What building a catalog from `sorted`, the entries in name order, gives.
pub open spec fn build_outcome(sorted: Seq<EnvSignalCatalogEntry>, r: Result<EnvSignalCatalog, String>) -> bool {
    match r {
        Ok(c) => c.view() == sorted && entries_ok(sorted),
        Err(m) => exists|i: int| #[trigger] first_fault_at(entry_faults(sorted), i, m@),
    }
}

impl View for EnvSignalCatalog {
    type V = Seq<EnvSignalCatalogEntry>;

    closed spec fn view(&self) -> Seq<EnvSignalCatalogEntry> {
        self.entries@
    }
}

fn contains_char(s: &[char], c: char) -> (r: bool)
    ensures
        r == s@.contains(c),
{
    let mut i: usize = 0;
    while i < s.len()
        invariant
            i <= s@.len(),
            forall|j: int| 0 <= j < i ==> s@[j] != c,
        decreases s.len() - i,
    {
        if s[i] == c {
            assert(s@[i as int] == c);
            return true;
        }
        i = i + 1;
    }
    false
}

fn chars_have_prefix(s: &[char], pre: &[char]) -> (r: bool)
    ensures
        r == has_prefix(s@, pre@),
{
    if pre.len() > s.len() {
        return false;
    }
    let mut i: usize = 0;
    while i < pre.len()
        invariant
            pre@.len() <= s@.len(),
            i <= pre@.len(),
            forall|j: int| 0 <= j < i ==> s@[j] == pre@[j],
        decreases pre.len() - i,
    {
        if s[i] != pre[i] {
            assert(s@.subrange(0, pre@.len() as int)[i as int] != pre@[i as int]);
            return false;
        }
        i = i + 1;
    }
    assert(s@.subrange(0, pre@.len() as int) =~= pre@);
    true
}

impl EnvSignalCatalog {
    /// Every entry passes its checks, so qualified names are distinct.
    pub closed spec fn wf(&self) -> bool {
        entries_ok(self.entries@)
    }

    /// Orders the entries by qualified name and checks each in that order:
    /// no ':' in a signal name, a qualified name made of the instance, ':'
    /// and the rest, and no qualified name twice.
    pub fn build(entries: Vec<EnvSignalCatalogEntry>) -> (r: Result<EnvSignalCatalog, String>)
        ensures
            exists|sorted: Seq<EnvSignalCatalogEntry>, perm: Seq<int>|
                #[trigger] stable_sorted_by_name(entries@, sorted, perm) && build_outcome(sorted, r),
            r matches Ok(c) ==> c.wf(),
    {
        let ghost input = entries@;
        let sorted = sort_by_qualified_name(entries);
        let ghost s = sorted@;
        let n = sorted.len();
        let mut k: usize = 0;
        while k < n
            invariant
                s == sorted@,
                n == s.len(),
                k <= n,
                input == entries@,
                exists|perm: Seq<int>| stable_sorted_by_name(input, s, perm),
                forall|j: int| 0 <= j < k ==> (#[trigger] entry_fault(s, j)) is None,
            decreases n - k,
        {
            let e = &sorted[k];
            let sig = str_chars(e.signal_name.as_str());
            let q = str_chars(e.qualified_name.as_str());
            let mut inst_colon = str_chars(e.instance.as_str());
            inst_colon.push(':');
            let fault: Option<String> = if contains_char(sig.as_slice(), ':') {
                let mut m = String::new();
                push_str(&mut m, "signal '");
                push_str(&mut m, e.signal_name.as_str());
                push_str(&mut m, "' in instance '");
                push_str(&mut m, e.instance.as_str());
                push_str(&mut m, "' contains reserved ':'");
                Some(m)
            } else if !chars_have_prefix(q.as_slice(), inst_colon.as_slice()) {
                let mut m = String::new();
                push_str(&mut m, "invalid qualified signal name '");
                push_str(&mut m, e.qualified_name.as_str());
                push_str(&mut m, "' for instance '");
                push_str(&mut m, e.instance.as_str());
                push_str(&mut m, "'");
                Some(m)
            } else {
                let mut found: Option<usize> = None;
                let mut j: usize = 0;
                while j < k
                    invariant
                        s == sorted@,
                        k < s.len(),
                        j <= k,
                        *e == s[k as int],
                        forall|a: int| 0 <= a < k ==> (#[trigger] entry_fault(s, a)) is None,
                        match found {
                            None => forall|a: int| 0 <= a < j ==> s[a].qualified_name@ != s[k as int].qualified_name@,
                            Some(a) => a < k && s[a as int].qualified_name@ == s[k as int].qualified_name@,
                        },
                    decreases k - j,
                {
                    if found.is_none() && same_text(sorted[j].qualified_name.as_str(), e.qualified_name.as_str()) {
                        found = Some(j);
                    }
                    j = j + 1;
                }
                match found {
                    None => None,
                    Some(a) => {
                        proof {
                            let c = collision(s, k as int);
                            assert(0 <= c < k && s[c].qualified_name@ == s[k as int].qualified_name@);
                            if c != a {
                                let lo = if c < a { c } else { a as int };
                                let hi = if c < a { a as int } else { c };
                                assert(entry_fault(s, hi) is None);
                                assert(s[lo].qualified_name@ == s[hi].qualified_name@);
                            }
                        }
                        let mut m = String::new();
                        push_str(&mut m, "duplicate env qualified signal '");
                        push_str(&mut m, e.qualified_name.as_str());
                        push_str(&mut m, "'; entries ");
                        push_dec(&mut m, a as u64);
                        push_str(&mut m, " and ");
                        push_dec(&mut m, k as u64);
                        push_str(&mut m, " collide");
                        Some(m)
                    },
                }
            };
            match fault {
                Some(m) => {
                    proof {
                        assert(entry_fault(s, k as int) == Some(m@));
                        assert(first_fault_at(entry_faults(s), k as int, m@));
                        assert(exists|i: int| #[trigger] first_fault_at(entry_faults(s), i, m@));
                    }
                    let ghost mv = m@;
                    let r: Result<EnvSignalCatalog, String> = Err(m);
                    proof {
                        let perm = choose|perm: Seq<int>| stable_sorted_by_name(input, s, perm);
                        assert(stable_sorted_by_name(input, s, perm));
                        assert(r matches Err(mm) && mm@ == mv);
                        assert(build_outcome(s, r));
                    }
                    return r;
                },
                None => {},
            }
            k = k + 1;
        }
        let cat = EnvSignalCatalog { entries: sorted };
        proof {
            let perm = choose|perm: Seq<int>| stable_sorted_by_name(input, s, perm);
            assert(stable_sorted_by_name(input, s, perm) && build_outcome(s, Ok(cat)));
        }
        Ok(cat)
    }

    /// The entries in qualified-name order.
    pub fn entries(&self) -> (r: &[EnvSignalCatalogEntry])
        ensures
            r@ == self@,
    {
        self.entries.as_slice()
    }
}

/// Every entry's signal name is free of ':', its qualified name is its
/// instance, ':' and the rest, and no qualified name occurs twice.
pub open spec fn catalog_entries_valid(es: Seq<EnvSignalCatalogEntry>) -> bool {
    &&& forall|i: int| 0 <= i < es.len() ==> !(#[trigger] es[i]).signal_name@.contains(':')
        && has_prefix(es[i].qualified_name@, es[i].instance@.push(':'))
    &&& forall|i: int, j: int| 0 <= i < j < es.len() ==> (#[trigger] es[i]).qualified_name@ != (#[trigger] es[j]).qualified_name@
}

/// `out` holds the entries of `input`, each once, in another order.
pub open spec fn is_permutation_of(out: Seq<EnvSignalCatalogEntry>, input: Seq<EnvSignalCatalogEntry>) -> bool {
    exists|perm: Seq<int>| {
        &&& out.len() == input.len()
        &&& perm.len() == out.len()
        &&& forall|k: int| 0 <= k < out.len() ==> 0 <= #[trigger] perm[k] < input.len() && out[k] == input[perm[k]]
        &&& forall|k1: int, k2: int| 0 <= k1 < k2 < out.len() ==> #[trigger] perm[k1] != #[trigger] perm[k2]
    }
}

/// Qualified names strictly ascend.
pub open spec fn names_ascending(out: Seq<EnvSignalCatalogEntry>) -> bool {
    forall|k1: int, k2: int| 0 <= k1 < k2 < out.len() ==> lex_lt(#[trigger] out[k1].qualified_name@, #[trigger] out[k2].qualified_name@)
}

proof fn lemma_perm_onto(perm: Seq<int>, n: int, i: int)
    requires
        perm.len() == n,
        forall|k: int| 0 <= k < n ==> 0 <= #[trigger] perm[k] < n,
        forall|k1: int, k2: int| 0 <= k1 < k2 < n ==> #[trigger] perm[k1] != #[trigger] perm[k2],
        0 <= i < n,
    ensures
        exists|k: int| 0 <= k < n && perm[k] == i,
{
    assert(perm.no_duplicates()) by {
        assert forall|a: int, b: int| 0 <= a < perm.len() && 0 <= b < perm.len() && a != b implies perm[a] != perm[b] by {
            if a < b {
                assert(perm[a] != perm[b]);
            } else {
                assert(perm[b] != perm[a]);
            }
        }
    }
    perm.unique_seq_to_set();
    vstd::set_lib::lemma_int_range(0, n);
    let range = vstd::set_lib::set_int_range(0, n);
    assert(perm.to_set().subset_of(range)) by {
        assert forall|x: int| perm.to_set().contains(x) implies range.contains(x) by {
            assert(perm.contains(x));
            let k = choose|k: int| 0 <= k < perm.len() && perm[k] == x;
            assert(0 <= perm[k] < n);
        }
    }
    vstd::set_lib::lemma_len_subset(perm.to_set(), range);
    vstd::set_lib::lemma_subset_equality(perm.to_set(), range);
    assert(range.contains(i));
    assert(perm.to_set().contains(i));
    assert(perm.contains(i));
}

/// Building a catalog succeeds exactly when every entry is valid and no
/// qualified name occurs twice; the catalog it gives holds the entries, each
/// once, with their qualified names strictly ascending.
pub proof fn lemma_catalog_build(input: Seq<EnvSignalCatalogEntry>, r: Result<EnvSignalCatalog, String>)
    requires
        exists|sorted: Seq<EnvSignalCatalogEntry>, perm: Seq<int>|
            #[trigger] stable_sorted_by_name(input, sorted, perm) && build_outcome(sorted, r),
    ensures
        r is Ok <==> catalog_entries_valid(input),
        r matches Ok(c) ==> is_permutation_of(c@, input) && names_ascending(c@),
{
    let (sorted, perm) = choose|sorted: Seq<EnvSignalCatalogEntry>, perm: Seq<int>|
        #[trigger] stable_sorted_by_name(input, sorted, perm) && build_outcome(sorted, r);
    let n = input.len() as int;
    if catalog_entries_valid(input) {
        assert forall|k: int| 0 <= k < sorted.len() implies (#[trigger] entry_fault(sorted, k)) is None by {
            assert(sorted[k] == input[perm[k]]);
            assert(!input[perm[k]].signal_name@.contains(':'));
            if exists|j: int| 0 <= j < k && sorted[j].qualified_name@ == sorted[k].qualified_name@ {
                let j = choose|j: int| 0 <= j < k && sorted[j].qualified_name@ == sorted[k].qualified_name@;
                assert(perm[j] != perm[k]);
                assert(sorted[j] == input[perm[j]]);
                if perm[j] < perm[k] {
                    assert(input[perm[j]].qualified_name@ != input[perm[k]].qualified_name@);
                } else {
                    assert(input[perm[k]].qualified_name@ != input[perm[j]].qualified_name@);
                }
            }
        }
        if let Err(m) = r {
            let i = choose|i: int| #[trigger] first_fault_at(entry_faults(sorted), i, m@);
            assert(entry_faults(sorted)[i] == entry_fault(sorted, i));
        }
    }
    if let Ok(c) = r {
        assert(c@ == sorted && entries_ok(sorted));
        assert forall|i: int| 0 <= i < n implies !(#[trigger] input[i]).signal_name@.contains(':')
            && has_prefix(input[i].qualified_name@, input[i].instance@.push(':')) by {
            lemma_perm_onto(perm, n, i);
            let k = choose|k: int| 0 <= k < n && perm[k] == i;
            assert(entry_fault(sorted, k) is None);
        }
        assert forall|i: int, j: int| 0 <= i < j < n implies (#[trigger] input[i]).qualified_name@ != (#[trigger] input[j]).qualified_name@ by {
            lemma_perm_onto(perm, n, i);
            lemma_perm_onto(perm, n, j);
            let ki = choose|k: int| 0 <= k < n && perm[k] == i;
            let kj = choose|k: int| 0 <= k < n && perm[k] == j;
            if ki < kj {
                assert(entry_fault(sorted, kj) is None);
                assert(sorted[ki].qualified_name@ != sorted[kj].qualified_name@);
            } else {
                assert(ki != kj);
                assert(entry_fault(sorted, ki) is None);
                assert(sorted[kj].qualified_name@ != sorted[ki].qualified_name@);
            }
        }
        assert(is_permutation_of(c@, input));
        assert forall|k1: int, k2: int| 0 <= k1 < k2 < c@.len() implies lex_lt(#[trigger] c@[k1].qualified_name@, #[trigger] c@[k2].qualified_name@) by {
            assert(entry_fault(sorted, k2) is None);
            assert(sorted[k1].qualified_name@ != sorted[k2].qualified_name@);
            lemma_lex_total(sorted[k1].qualified_name@, sorted[k2].qualified_name@);
        }
    }
}

/// Whether a glob pattern fails to compile, and with which message; a name
/// for what `globset::Glob::new` returns on a pattern without a backslash.
pub uninterp spec fn glob_compile_error(pattern: Seq<char>) -> Option<Seq<char>>;

/// Whether a compiled glob pattern matches a value; a name for what
/// `globset::GlobMatcher::is_match` returns when neither holds a backslash.
pub uninterp spec fn glob_match(pattern: Seq<char>, value: Seq<char>) -> bool;

/// The text holds no backslash. globset reads a backslash in a pattern as
/// an escape only where it is not a path separator, and on Windows turns
/// each backslash of a value into `/` before matching; on text without
/// one it compiles and matches alike on every platform.
pub open spec fn portable(s: Seq<char>) -> bool {
    !s.contains('\\')
}

#[verifier::external_type_specification]
#[verifier::external_body]
pub struct ExGlobMatcher(globset::GlobMatcher);

/// A compiled glob pattern with the text it was compiled from.
pub struct SelectorGlob {
    pattern: String,
    matcher: globset::GlobMatcher,
}

impl SelectorGlob {
    pub closed spec fn pattern(&self) -> Seq<char> {
        self.pattern@
    }
}

/// Compiles a glob pattern with `globset::Glob::new` and `compile_matcher`.
/// The matcher keeps its pattern. For a pattern without a backslash the
/// outcome and the error text are those the pattern determines; for one
/// with a backslash they depend on the platform, and nothing is claimed.
#[verifier::external_body]
fn compile_glob(pattern: &str) -> (r: Result<SelectorGlob, String>)
    ensures
        r matches Ok(g) ==> g.pattern() == pattern@,
        portable(pattern@) ==> match r {
            Ok(g) => glob_compile_error(pattern@) is None,
            Err(e) => glob_compile_error(pattern@) == Some(e@),
        },
{
    match globset::Glob::new(pattern) {
        Ok(glob) => Ok(SelectorGlob { pattern: pattern.to_string(), matcher: glob.compile_matcher() }),
        Err(err) => Err(err.to_string()),
    }
}

/// Matches a value with `globset::GlobMatcher::is_match`. Where neither the
/// pattern nor the value holds a backslash, the answer is the one they
/// determine; otherwise it depends on the platform and nothing is claimed.
#[verifier::external_body]
fn glob_matches(glob: &SelectorGlob, value: &str) -> (r: bool)
    ensures
        portable(glob.pattern()) && portable(value@) ==> r == glob_match(glob.pattern(), value@),
{
    glob.matcher.is_match(value)
}

/// The text holds a glob metacharacter.
pub open spec fn has_glob(s: Seq<char>) -> bool {
    s.contains('*') || s.contains('?') || s.contains('[')
}

/// A selector part picks a value: by glob when it holds metacharacters, else by equality.
pub open spec fn part_matches(value: Seq<char>, selector: Seq<char>) -> bool {
    if has_glob(selector) { glob_match(selector, value) } else { value == selector }
}

/// The positions of the entries, up to `n`, whose instance and signal name the selector parts pick.
pub open spec fn matching_upto(entries: Seq<EnvSignalCatalogEntry>, inst: Seq<char>, sig: Seq<char>, n: int) -> Seq<usize>
    decreases n,
{
    if n <= 0 {
        Seq::empty()
    } else if part_matches(entries[n - 1].instance@, inst) && part_matches(entries[n - 1].signal_name@, sig) {
        matching_upto(entries, inst, sig, n - 1).push((n - 1) as usize)
    } else {
        matching_upto(entries, inst, sig, n - 1)
    }
}

/// The first position of `c` in `s`.
pub open spec fn first_index(s: Seq<char>, c: char) -> int {
    choose|p: int| 0 <= p < s.len() && s[p] == c && forall|q: int| 0 <= q < p ==> s[q] != c
}

/// What a selector resolves to in a catalog: `*` is every entry; otherwise
/// `<instance>:<signal>`, split at the first ':', each part a name or a glob.
pub open spec fn selector_outcome(entries: Seq<EnvSignalCatalogEntry>, sel: Seq<char>) -> Result<Seq<usize>, Seq<char>> {
    if sel == "*"@ {
        Ok(Seq::new(entries.len(), |i: int| i as usize))
    } else if !sel.contains(':') {
        Err("invalid env selector '"@ + sel + "'; expected '<instance>:<signal>' or '*'"@)
    } else {
        let p = first_index(sel, ':');
        let inst = sel.take(p);
        let sig = sel.skip(p + 1);
        if inst.len() == 0 || sig.len() == 0 {
            Err("invalid env selector '"@ + sel + "'; expected '<instance>:<signal>'"@)
        } else if sig[0] == '#' {
            Err("env selector '"@ + sel + "' cannot use local signal ids; use qualified signal names"@)
        } else if !has_glob(inst) && !has_glob(sig) {
            if exists|k: int| 0 <= k < entries.len() && entries[k].qualified_name@ == sel {
                Ok(seq![(choose|k: int| 0 <= k < entries.len() && entries[k].qualified_name@ == sel) as usize])
            } else {
                Err("env signal not found: '"@ + sel + "'"@)
            }
        } else if has_glob(inst) && glob_compile_error(inst) is Some {
            Err("invalid env selector '"@ + sel + "': "@ + glob_compile_error(inst).unwrap())
        } else if has_glob(sig) && glob_compile_error(sig) is Some {
            Err("invalid env selector '"@ + sel + "': "@ + glob_compile_error(sig).unwrap())
        } else if matching_upto(entries, inst, sig, entries.len() as int).len() == 0 {
            Err("env selector matched nothing: '"@ + sel + "'"@)
        } else {
            Ok(matching_upto(entries, inst, sig, entries.len() as int))
        }
    }
}

/// Every entry's instance and signal name is free of backslashes.
pub open spec fn entries_portable(entries: Seq<EnvSignalCatalogEntry>) -> bool {
    forall|k: int| 0 <= k < entries.len() ==> portable(#[trigger] entries[k].instance@) && portable(entries[k].signal_name@)
}

/// The selector is resolved by its glob parts: it is not `*`, splits into
/// two non-empty parts, the signal part is no `#` id, and a part is a glob.
pub open spec fn reaches_glob(sel: Seq<char>) -> bool {
    &&& sel != "*"@
    &&& sel.contains(':')
    &&& {
        let p = first_index(sel, ':');
        let inst = sel.take(p);
        let sig = sel.skip(p + 1);
        inst.len() > 0 && sig.len() > 0 && sig[0] != '#' && (has_glob(inst) || has_glob(sig))
    }
}

/// What the selector resolves to does not depend on the platform: it uses
/// no glob, or neither it nor any entry name holds a backslash.
pub open spec fn selector_settled(entries: Seq<EnvSignalCatalogEntry>, sel: Seq<char>) -> bool {
    !reaches_glob(sel) || (portable(sel) && entries_portable(entries))
}

/// Positions below `n`, each larger than the one before.
pub open spec fn positions_ascending(v: Seq<usize>, n: int) -> bool {
    &&& forall|i: int| 0 <= i < v.len() ==> #[trigger] v[i] < n
    &&& forall|i: int, j: int| 0 <= i < j < v.len() ==> v[i] < v[j]
}

proof fn lemma_portable_sub(s: Seq<char>, lo: int, hi: int)
    requires
        portable(s),
        0 <= lo <= hi <= s.len(),
    ensures
        portable(s.subrange(lo, hi)),
{
    if s.subrange(lo, hi).contains('\\') {
        let i = choose|i: int| 0 <= i < s.subrange(lo, hi).len() && s.subrange(lo, hi)[i] == '\\';
        assert(s[lo + i] == '\\');
    }
}

fn chars_between(s: &[char], lo: usize, hi: usize) -> (r: String)
    requires
        lo <= hi <= s@.len(),
    ensures
        r@ == s@.subrange(lo as int, hi as int),
{
    let mut r = String::new();
    let mut i: usize = lo;
    while i < hi
        invariant
            lo <= i <= hi <= s@.len(),
            r@ == s@.subrange(lo as int, i as int),
        decreases hi - i,
    {
        crate::text::string_push(&mut r, s[i]);
        assert(s@.subrange(lo as int, i + 1) =~= s@.subrange(lo as int, i as int).push(s@[i as int]));
        i = i + 1;
    }
    r
}

fn holds_glob(s: &[char]) -> (r: bool)
    ensures
        r == has_glob(s@),
{
    contains_char(s, '*') || contains_char(s, '?') || contains_char(s, '[')
}

fn part_matches_exec(value: &str, selector: &str, glob: &Option<SelectorGlob>) -> (r: bool)
    requires
        has_glob(selector@) ==> (glob matches Some(g) && g.pattern() == selector@),
        !has_glob(selector@) ==> glob is None,
    ensures
        !has_glob(selector@) || (portable(selector@) && portable(value@)) ==> r == part_matches(value@, selector@),
{
    match glob {
        Some(g) => glob_matches(g, value),
        None => same_text(value, selector),
    }
}

fn selector_message(a: &str, sel: &str, b: &str) -> (m: String)
    ensures
        m@ == a@ + sel@ + b@,
{
    let mut m = String::new();
    push_str(&mut m, a);
    push_str(&mut m, sel);
    push_str(&mut m, b);
    assert(m@ =~= a@ + sel@ + b@);
    m
}

impl EnvSignalCatalog {
    /// The positions the selector picks, in catalog order.
    pub fn resolve_selector_indices(&self, selector: &str) -> (r: Result<Vec<usize>, String>)
        requires
            self.wf(),
        ensures
            selector_settled(self@, selector@) ==> match selector_outcome(self@, selector@) {
                Ok(v) => r matches Ok(out) && out@ == v,
                Err(m) => r matches Err(e) && e@ == m,
            },
            r matches Ok(v) ==> positions_ascending(v@, self@.len() as int),
    {
        let ghost entries = self.entries@;
        let sel = str_chars(selector);
        proof {
            reveal_strlit("*");
        }
        if sel.len() == 1 && sel[0] == '*' {
            assert(sel@ =~= "*"@);
            let mut out: Vec<usize> = Vec::new();
            let mut i: usize = 0;
            while i < self.entries.len()
                invariant
                    i <= self.entries@.len(),
                    out@ == Seq::new(i as nat, |j: int| j as usize),
                decreases self.entries@.len() - i,
            {
                out.push(i);
                assert(out@ =~= Seq::new((i + 1) as nat, |j: int| j as usize));
                i = i + 1;
            }
            return Ok(out);
        }
        proof {
            if sel@ == "*"@ {
                assert(sel@.len() == 1 && sel@[0] == '*');
            }
        }
        let mut p: usize = 0;
        while p < sel.len() && sel[p] != ':'
            invariant
                p <= sel@.len(),
                forall|q: int| 0 <= q < p ==> sel@[q] != ':',
            decreases sel.len() - p,
        {
            p = p + 1;
        }
        if p == sel.len() {
            proof {
                if sel@.contains(':') {
                    let q = choose|q: int| 0 <= q < sel@.len() && sel@[q] == ':';
                }
            }
            return Err(selector_message(
                "invalid env selector '",
                selector,
                "'; expected '<instance>:<signal>' or '*'",
            ));
        }
        proof {
            assert(sel@.contains(':')) by {
                assert(sel@[p as int] == ':');
            }
            let fp = first_index(sel@, ':');
            if fp < p {
                assert(sel@[fp] != ':');
            }
            if fp > p {
                assert(sel@[p as int] != ':');
            }
            assert(fp == p);
        }
        let inst = chars_between(sel.as_slice(), 0, p);
        let sig = chars_between(sel.as_slice(), p + 1, sel.len());
        proof {
            assert(inst@ =~= sel@.take(p as int));
            assert(sig@ =~= sel@.skip(p + 1));
        }
        if inst.as_str().is_empty() || sig.as_str().is_empty() {
            return Err(selector_message("invalid env selector '", selector, "'; expected '<instance>:<signal>'"));
        }
        let sig_chars = str_chars(sig.as_str());
        let inst_chars = str_chars(inst.as_str());
        if sig_chars[0] == '#' {
            return Err(selector_message(
                "env selector '",
                selector,
                "' cannot use local signal ids; use qualified signal names",
            ));
        }
        let inst_glob = holds_glob(inst_chars.as_slice());
        let sig_glob = holds_glob(sig_chars.as_slice());
        if !inst_glob && !sig_glob {
            let mut k: usize = 0;
            while k < self.entries.len()
                invariant
                    entries == self.entries@,
                    entries_ok(entries),
                    sel@ == selector@,
                    sel@ != "*"@,
                    sel@.contains(':'),
                    p < sel@.len(),
                    first_index(sel@, ':') == p,
                    inst@ == sel@.take(p as int),
                    sig@ == sel@.skip(p + 1),
                    inst@.len() > 0 && sig@.len() > 0,
                    sig@[0] != '#',
                    !has_glob(inst@) && !has_glob(sig@),
                    k <= entries.len(),
                    forall|j: int| 0 <= j < k ==> entries[j].qualified_name@ != selector@,
                decreases entries.len() - k,
            {
                if same_text(self.entries[k].qualified_name.as_str(), selector) {
                    proof {
                        assert(entries[k as int].qualified_name@ == sel@);
                        let c = choose|c: int| 0 <= c < entries.len() && entries[c].qualified_name@ == sel@;
                        if c != k {
                            assert(c > k);
                            assert(entry_fault(entries, c) is None);
                            assert(entries[k as int].qualified_name@ == entries[c].qualified_name@);
                        }
                    }
                    let mut out: Vec<usize> = Vec::new();
                    out.push(k);
                    proof {
                        assert(out@ =~= seq![k]);
                        assert(selector_outcome(entries, sel@) == Ok::<Seq<usize>, Seq<char>>(seq![k]));
                    }
                    return Ok(out);
                }
                k = k + 1;
            }
            return Err(selector_message("env signal not found: '", selector, "'"));
        }
        let ghost settled = portable(sel@) && entries_portable(entries);
        proof {
            if settled {
                lemma_portable_sub(sel@, 0, p as int);
                lemma_portable_sub(sel@, p + 1, sel@.len() as int);
                assert(sel@.take(p as int) =~= sel@.subrange(0, p as int));
                assert(sel@.skip(p + 1) =~= sel@.subrange(p + 1, sel@.len() as int));
            }
            assert(reaches_glob(sel@));
        }
        let ig: Option<SelectorGlob> = if inst_glob {
            match compile_glob(inst.as_str()) {
                Ok(g) => Some(g),
                Err(e) => {
                    let mut m = selector_message("invalid env selector '", selector, "': ");
                    push_str(&mut m, e.as_str());
                    return Err(m);
                },
            }
        } else {
            None
        };
        let sg: Option<SelectorGlob> = if sig_glob {
            match compile_glob(sig.as_str()) {
                Ok(g) => Some(g),
                Err(e) => {
                    let mut m = selector_message("invalid env selector '", selector, "': ");
                    push_str(&mut m, e.as_str());
                    return Err(m);
                },
            }
        } else {
            None
        };
        let mut out: Vec<usize> = Vec::new();
        let mut k: usize = 0;
        while k < self.entries.len()
            invariant
                entries == self.entries@,
                k <= entries.len(),
                has_glob(inst@) ==> (ig matches Some(g) && g.pattern() == inst@),
                !has_glob(inst@) ==> ig is None,
                has_glob(sig@) ==> (sg matches Some(g) && g.pattern() == sig@),
                !has_glob(sig@) ==> sg is None,
                settled ==> portable(inst@) && portable(sig@) && entries_portable(entries),
                settled ==> out@ == matching_upto(entries, inst@, sig@, k as int),
                positions_ascending(out@, k as int),
            decreases entries.len() - k,
        {
            let e = &self.entries[k];
            if part_matches_exec(e.instance.as_str(), inst.as_str(), &ig) && part_matches_exec(
                e.signal_name.as_str(),
                sig.as_str(),
                &sg,
            ) {
                out.push(k);
            }
            proof {
                if settled {
                    assert(portable(entries[k as int].instance@) && portable(entries[k as int].signal_name@));
                }
            }
            k = k + 1;
        }
        if out.len() == 0 {
            return Err(selector_message("env selector matched nothing: '", selector, "'"));
        }
        Ok(out)
    }

    /// The positions every selector picks, selector after selector.
    pub fn resolve_selectors(&self, selectors: &[String]) -> (r: Result<Vec<usize>, String>)
        requires
            self.wf(),
        ensures
            selectors@.len() == 0 ==> (r matches Err(e) && e@ == "missing env signal selectors"@),
            selectors@.len() > 0 && selectors_settled(self@, selectors@) ==> match selectors_outcome(self@, selectors@, selectors@.len() as int) {
                Ok(v) => r matches Ok(out) && out@ == v,
                Err(m) => r matches Err(e) && e@ == m,
            },
            r matches Ok(v) ==> forall|t: int| 0 <= t < v@.len() ==> #[trigger] v@[t] < self@.len(),
    {
        if selectors.len() == 0 {
            let mut m = String::new();
            push_str(&mut m, "missing env signal selectors");
            assert(m@ =~= "missing env signal selectors"@);
            return Err(m);
        }
        let mut resolved: Vec<usize> = Vec::new();
        let mut i: usize = 0;
        while i < selectors.len()
            invariant
                self.wf(),
                i <= selectors@.len(),
                selectors_settled(self@, selectors@) ==> selectors_outcome(self@, selectors@, i as int) == Ok::<Seq<usize>, Seq<char>>(resolved@),
                forall|t: int| 0 <= t < resolved@.len() ==> #[trigger] resolved@[t] < self@.len(),
            decreases selectors@.len() - i,
        {
            proof {
                if selectors_settled(self@, selectors@) {
                    assert(selector_settled(self@, selectors@[i as int]@));
                }
            }
            match self.resolve_selector_indices(selectors[i].as_str()) {
                Err(e) => {
                    proof {
                        if selectors_settled(self@, selectors@) {
                            lemma_selectors_err_sticks(self@, selectors@, i as int + 1, selectors@.len() as int);
                        }
                    }
                    return Err(e);
                },
                Ok(v) => {
                    let mut j: usize = 0;
                    let ghost before = resolved@;
                    while j < v.len()
                        invariant
                            j <= v@.len(),
                            resolved@ == before + v@.take(j as int),
                            positions_ascending(v@, self@.len() as int),
                            forall|t: int| 0 <= t < before.len() ==> #[trigger] before[t] < self@.len(),
                        decreases v@.len() - j,
                    {
                        resolved.push(v[j]);
                        assert(before + v@.take(j + 1) =~= (before + v@.take(j as int)).push(v@[j as int]));
                        j = j + 1;
                    }
                    assert(v@.take(v@.len() as int) =~= v@);
                },
            }
            i = i + 1;
        }
        Ok(resolved)
    }
}

/// Every selector resolves alike on every platform.
pub open spec fn selectors_settled(entries: Seq<EnvSignalCatalogEntry>, sels: Seq<String>) -> bool {
    forall|i: int| 0 <= i < sels.len() ==> selector_settled(entries, #[trigger] sels[i]@)
}

/// The positions the first `n` selectors pick, concatenated; the first failure wins.
pub open spec fn selectors_outcome(entries: Seq<EnvSignalCatalogEntry>, sels: Seq<String>, n: int) -> Result<Seq<usize>, Seq<char>>
    decreases n,
{
    if n <= 0 {
        Ok(Seq::empty())
    } else {
        match selectors_outcome(entries, sels, n - 1) {
            Err(m) => Err(m),
            Ok(prev) => match selector_outcome(entries, sels[n - 1]@) {
                Err(m) => Err(m),
                Ok(v) => Ok(prev + v),
            },
        }
    }
}

proof fn lemma_selectors_err_sticks(entries: Seq<EnvSignalCatalogEntry>, sels: Seq<String>, i: int, n: int)
    requires
        1 <= i <= n,
        selectors_outcome(entries, sels, i) is Err,
    ensures
        selectors_outcome(entries, sels, n) == selectors_outcome(entries, sels, i),
    decreases n - i,
{
    if i < n {
        lemma_selectors_err_sticks(entries, sels, i, n - 1);
    }
}


/// Whether position `i` of the digits `ds` is where an unsigned decimal
/// parse stops: a non-digit, or a prefix whose value passes `max`.
pub open spec fn digit_fault(ds: Seq<char>, i: int, max: nat) -> bool {
    digit_value(ds[i], 10) is None || digits_value(ds.take(i + 1), 10) > max
}

/// The first position where an unsigned decimal parse stops.
pub open spec fn first_digit_fault(ds: Seq<char>, max: nat) -> int {
    choose|i: int| 0 <= i < ds.len() && digit_fault(ds, i, max) && forall|j: int| 0 <= j < i ==> !#[trigger] digit_fault(ds, j, max)
}

/// The message of std's integer parse error for an unsigned decimal text
/// that is not a number of at most `max`.
pub open spec fn int_parse_error(s: Seq<char>, max: nat) -> Seq<char> {
    let ds = unsigned_digits(s);
    if s.len() == 0 {
        "cannot parse integer from empty string"@
    } else if ds.len() == 0 || digit_value(ds[first_digit_fault(ds, max)], 10) is None {
        "invalid digit found in string"@
    } else {
        "number too large to fit in target type"@
    }
}

proof fn lemma_first_digit_fault(ds: Seq<char>, i: int, max: nat)
    requires
        0 <= i < ds.len(),
        digit_fault(ds, i, max),
        forall|j: int| 0 <= j < i ==> !#[trigger] digit_fault(ds, j, max),
    ensures
        first_digit_fault(ds, max) == i,
{
    let k = first_digit_fault(ds, max);
    assert(0 <= k < ds.len() && digit_fault(ds, k, max) && forall|j: int| 0 <= j < k ==> !#[trigger] digit_fault(ds, j, max));
    if k < i {
        assert(!digit_fault(ds, k, max));
    }
    if k > i {
        assert(!digit_fault(ds, i, max));
    }
}

proof fn lemma_digits_prefix_le(ds: Seq<char>, k: int)
    requires
        0 <= k <= ds.len(),
    ensures
        digits_value(ds.take(k), 10) <= digits_value(ds, 10),
    decreases ds.len(),
{
    if k == ds.len() {
        assert(ds.take(k) =~= ds);
    } else {
        lemma_digits_prefix_le(ds.drop_last(), k);
        assert(ds.drop_last().take(k) =~= ds.take(k));
    }
}

fn text_message(m: &str) -> (r: String)
    ensures
        r@ == m@,
{
    let mut r = String::new();
    push_str(&mut r, m);
    assert(r@ =~= m@);
    r
}

/// Parses an unsigned 32-bit decimal number as std does, with std's message
/// when the text is not one.
pub fn parse_u32_decimal(s: &[char]) -> (r: Result<u32, String>)
    ensures
        match parse_unsigned(s@, 10, u32::MAX as nat) {
            Some(v) => r == Ok::<u32, String>(v as u32),
            None => r matches Err(m) && m@ == int_parse_error(s@, u32::MAX as nat),
        },
{
    let ghost max: nat = u32::MAX as nat;
    let n = s.len();
    if n == 0 {
        return Err(text_message("cannot parse integer from empty string"));
    }
    let start: usize = if s[0] == '+' { 1 } else { 0 };
    let ghost ds = unsigned_digits(s@);
    assert(ds =~= s@.subrange(start as int, n as int));
    if start == n {
        return Err(text_message("invalid digit found in string"));
    }
    let mut acc: u64 = 0;
    let mut i: usize = start;
    while i < n
        invariant
            start <= i <= n,
            n == s@.len(),
            start < n,
            ds == s@.subrange(start as int, n as int),
            ds == unsigned_digits(s@),
            max == u32::MAX as nat,
            acc == digits_value(ds.take(i - start), 10),
            acc <= u32::MAX,
            forall|j: int| 0 <= j < i - start ==> !#[trigger] digit_fault(ds, j, max),
        decreases n - i,
    {
        let ghost p: int = i - start;
        assert(ds[p] == s@[i as int]);
        assert(ds.take(p + 1).drop_last() =~= ds.take(p));
        match digit_of_char(s[i], 10) {
            None => {
                proof {
                    assert(digit_fault(ds, p, max));
                    lemma_first_digit_fault(ds, p, max);
                    assert(!all_digits(ds, 10)) by {
                        assert(digit_value(ds[p], 10) is None);
                    }
                }
                return Err(text_message("invalid digit found in string"));
            },
            Some(d) => {
                let next: u64 = acc * 10 + d;
                assert(next == digits_value(ds.take(p + 1), 10));
                if next > u32::MAX as u64 {
                    proof {
                        assert(digit_fault(ds, p, max));
                        lemma_first_digit_fault(ds, p, max);
                        if all_digits(ds, 10) {
                            lemma_digits_prefix_le(ds, p + 1);
                        }
                    }
                    return Err(text_message("number too large to fit in target type"));
                }
                acc = next;
                proof {
                    assert(!digit_fault(ds, p, max));
                }
            },
        }
        i = i + 1;
    }
    proof {
        assert(ds.take(ds.len() as int) =~= ds);
        assert forall|j: int| 0 <= j < ds.len() implies #[trigger] digit_value(ds[j], 10) is Some by {
            assert(!digit_fault(ds, j, max));
        }
    }
    Ok(acc as u32)
}

/// The ids of every signal.
pub open spec fn all_signal_ids(signals: Seq<SignalMeta>) -> Set<u32> {
    Set::new(|id: u32| exists|k: int| 0 <= k < signals.len() && signals[k].id == id)
}

/// Some signal's name is matched by the glob.
pub open spec fn glob_hits(signals: Seq<SignalMeta>, pattern: Seq<char>) -> bool {
    exists|k: int| 0 <= k < signals.len() && glob_match(pattern, #[trigger] signals[k].name@)
}

/// The ids of the signals whose names the glob matches.
pub open spec fn glob_signal_ids(signals: Seq<SignalMeta>, pattern: Seq<char>) -> Set<u32> {
    Set::new(|id: u32| exists|k: int| 0 <= k < signals.len() && glob_match(pattern, signals[k].name@) && signals[k].id == id)
}

/// The id a name is looked up to: that of the last signal of that name.
pub open spec fn named_id(signals: Seq<SignalMeta>, name: Seq<char>) -> Option<u32>
    decreases signals.len(),
{
    if signals.len() == 0 {
        None
    } else if signals.last().name@ == name {
        Some(signals.last().id)
    } else {
        named_id(signals.drop_last(), name)
    }
}

/// The ids one selector picks among a project's signals: `*` is every
/// signal, `#<id>` one id, a glob every name it matches, else one name.
pub open spec fn instance_selector_ids(signals: Seq<SignalMeta>, sel: Seq<char>) -> Result<Set<u32>, Seq<char>> {
    if sel == "*"@ {
        Ok(all_signal_ids(signals))
    } else if sel.len() > 0 && sel[0] == '#' {
        match parse_unsigned(sel.drop_first(), 10, u32::MAX as nat) {
            Some(v) => if all_signal_ids(signals).contains(v as u32) {
                Ok(set![v as u32])
            } else {
                Err("signal not found: '#"@ + dec(v) + "'"@)
            },
            None => Err(int_parse_error(sel.drop_first(), u32::MAX as nat)),
        }
    } else if has_glob(sel) {
        match glob_compile_error(sel) {
            Some(e) => Err(e),
            None => if glob_hits(signals, sel) {
                Ok(glob_signal_ids(signals, sel))
            } else {
                Err("signal glob matched nothing: '"@ + sel + "'"@)
            },
        }
    } else {
        match named_id(signals, sel) {
            Some(id) => Ok(set![id]),
            None => Err("signal not found: '"@ + sel + "'"@),
        }
    }
}

/// The ids the first `n` selectors pick together; the first failure wins.
pub open spec fn instance_selection(signals: Seq<SignalMeta>, sels: Seq<String>, n: int) -> Result<Set<u32>, Seq<char>>
    decreases n,
{
    if n <= 0 {
        Ok(Set::empty())
    } else {
        match instance_selection(signals, sels, n - 1) {
            Err(m) => Err(m),
            Ok(prev) => match instance_selector_ids(signals, sels[n - 1]@) {
                Err(m) => Err(m),
                Ok(ids) => Ok(prev + ids),
            },
        }
    }
}

/// Every signal name is free of backslashes.
pub open spec fn names_portable(signals: Seq<SignalMeta>) -> bool {
    forall|k: int| 0 <= k < signals.len() ==> portable(#[trigger] signals[k].name@)
}

/// What the selector picks does not depend on the platform: it is no glob
/// (or `*`, or a `#` id), or neither it nor any signal name holds a backslash.
pub open spec fn instance_selector_settled(signals: Seq<SignalMeta>, sel: Seq<char>) -> bool {
    sel == "*"@ || (sel.len() > 0 && sel[0] == '#') || !has_glob(sel) || (portable(sel) && names_portable(signals))
}

/// Every selector picks alike on every platform.
pub open spec fn instance_selectors_settled(signals: Seq<SignalMeta>, sels: Seq<String>) -> bool {
    forall|i: int| 0 <= i < sels.len() ==> instance_selector_settled(signals, #[trigger] sels[i]@)
}

proof fn lemma_named_id_in(signals: Seq<SignalMeta>, name: Seq<char>)
    ensures
        named_id(signals, name) matches Some(id) ==> all_signal_ids(signals).contains(id),
    decreases signals.len(),
{
    if signals.len() > 0 {
        if signals.last().name@ == name {
            assert(signals[signals.len() - 1].id == signals.last().id);
        } else {
            lemma_named_id_in(signals.drop_last(), name);
            if let Some(id) = named_id(signals.drop_last(), name) {
                let k = choose|k: int| 0 <= k < signals.drop_last().len() && signals.drop_last()[k].id == id;
                assert(signals[k].id == id);
            }
        }
    }
}

/// Every element is smaller than the next.
pub open spec fn strictly_ascending(s: Seq<u32>) -> bool {
    forall|i: int, j: int| 0 <= i < j < s.len() ==> s[i] < s[j]
}

proof fn lemma_selection_err_sticks(signals: Seq<SignalMeta>, sels: Seq<String>, i: int, n: int)
    requires
        1 <= i <= n,
        instance_selection(signals, sels, i) is Err,
    ensures
        instance_selection(signals, sels, n) == instance_selection(signals, sels, i),
    decreases n - i,
{
    if i < n {
        lemma_selection_err_sticks(signals, sels, i, n - 1);
    }
}

fn insert_ascending(v: &mut Vec<u32>, id: u32)
    requires
        strictly_ascending(old(v)@),
    ensures
        strictly_ascending(final(v)@),
        final(v)@.to_set() == old(v)@.to_set().insert(id),
{
    let mut p: usize = 0;
    while p < v.len() && v[p] < id
        invariant
            p <= v@.len(),
            forall|k: int| 0 <= k < p ==> v@[k] < id,
        decreases v@.len() - p,
    {
        p = p + 1;
    }
    if p < v.len() && v[p] == id {
        assert(v@.to_set().insert(id) =~= v@.to_set()) by {
            assert(v@.contains(id)) by {
                assert(v@[p as int] == id);
            }
        }
        return;
    }
    let ghost before = v@;
    v.insert(p, id);
    proof {
        before.insert_ensures(p as int, id);
        let after = v@;
        assert forall|i: int, j: int| 0 <= i < j < after.len() implies after[i] < after[j] by {
            if j < p {
            } else if j == p {
            } else if i < p {
                assert(after[j] == before[j - 1]);
                assert(before[p as int] > id);
                if j - 1 > p {
                    assert(before[p as int] < before[j - 1]);
                }
            } else if i == p {
                assert(after[j] == before[j - 1]);
                assert(before[p as int] > id);
                if j - 1 > p {
                    assert(before[p as int] < before[j - 1]);
                }
            } else {
                assert(after[i] == before[i - 1]);
                assert(after[j] == before[j - 1]);
            }
        }
        assert forall|x: u32| after.contains(x) <==> before.contains(x) || x == id by {
            if after.contains(x) {
                let k = choose|k: int| 0 <= k < after.len() && after[k] == x;
                if k < p {
                    assert(before[k] == x);
                } else if k > p {
                    assert(before[k - 1] == x);
                }
            }
            if before.contains(x) {
                let k = choose|k: int| 0 <= k < before.len() && before[k] == x;
                if k < p {
                    assert(after[k] == x);
                } else {
                    assert(after[k + 1] == x);
                }
            }
            if x == id {
                assert(after[p as int] == x);
            }
        }
        assert(after.to_set() =~= before.to_set().insert(id));
    }
}

fn last_named_id(signals: &[SignalMeta], name: &str) -> (r: Option<u32>)
    ensures
        r == named_id(signals@, name@),
{
    let mut i: usize = signals.len();
    assert(signals@.take(i as int) =~= signals@);
    while i > 0
        invariant
            i <= signals@.len(),
            named_id(signals@, name@) == named_id(signals@.take(i as int), name@),
        decreases i,
    {
        let ghost pre = signals@.take(i as int);
        assert(pre.drop_last() =~= signals@.take(i - 1));
        if same_text(signals[i - 1].name.as_str(), name) {
            return Some(signals[i - 1].id);
        }
        i = i - 1;
    }
    None
}

fn has_signal_id(signals: &[SignalMeta], id: u32) -> (r: bool)
    ensures
        r == all_signal_ids(signals@).contains(id),
{
    let mut k: usize = 0;
    while k < signals.len()
        invariant
            k <= signals@.len(),
            forall|j: int| 0 <= j < k ==> signals@[j].id != id,
        decreases signals@.len() - k,
    {
        if signals[k].id == id {
            return true;
        }
        k = k + 1;
    }
    false
}

/// The ids of a project's signals that the selectors pick, ascending and
/// each once.
pub fn select_instance_signal_ids(signals: &[SignalMeta], selectors: &[String]) -> (r: Result<Vec<u32>, String>)
    ensures
        selectors@.len() == 0 ==> (r matches Err(e) && e@ == "missing signal selectors"@),
        selectors@.len() > 0 && instance_selectors_settled(signals@, selectors@) ==> match instance_selection(signals@, selectors@, selectors@.len() as int) {
            Ok(ids) => r matches Ok(v) && strictly_ascending(v@) && v@.to_set() == ids,
            Err(m) => r matches Err(e) && e@ == m,
        },
        r matches Ok(v) ==> strictly_ascending(v@) && v@.to_set().subset_of(all_signal_ids(signals@)),
{
    if selectors.len() == 0 {
        return Err(text_message("missing signal selectors"));
    }
    let mut ids: Vec<u32> = Vec::new();
    let mut i: usize = 0;
    assert(ids@.to_set() =~= Set::<u32>::empty());
    while i < selectors.len()
        invariant
            i <= selectors@.len(),
            strictly_ascending(ids@),
            instance_selectors_settled(signals@, selectors@) ==> instance_selection(signals@, selectors@, i as int) == Ok::<Set<u32>, Seq<char>>(ids@.to_set()),
            ids@.to_set().subset_of(all_signal_ids(signals@)),
        decreases selectors@.len() - i,
    {
        let selector = selectors[i].as_str();
        let ghost before = ids@.to_set();
        proof {
            if instance_selectors_settled(signals@, selectors@) {
                assert(instance_selector_settled(signals@, selectors@[i as int]@));
            }
        }
        let outcome = select_one(signals, selector, &mut ids);
        match outcome {
            Err(e) => {
                proof {
                    if instance_selectors_settled(signals@, selectors@) {
                        lemma_selection_err_sticks(signals@, selectors@, i as int + 1, selectors@.len() as int);
                    }
                }
                return Err(e);
            },
            Ok(()) => {},
        }
        i = i + 1;
    }
    Ok(ids)
}

fn select_one(signals: &[SignalMeta], selector: &str, ids: &mut Vec<u32>) -> (r: Result<(), String>)
    requires
        strictly_ascending(old(ids)@),
    ensures
        strictly_ascending(final(ids)@),
        instance_selector_settled(signals@, selector@) ==> match instance_selector_ids(signals@, selector@) {
            Ok(set) => r is Ok && final(ids)@.to_set() == old(ids)@.to_set() + set,
            Err(m) => r matches Err(e) && e@ == m,
        },
        r is Ok ==> old(ids)@.to_set().subset_of(final(ids)@.to_set())
            && final(ids)@.to_set().subset_of(old(ids)@.to_set() + all_signal_ids(signals@)),
{
    let sel = str_chars(selector);
    proof {
        reveal_strlit("*");
    }
    if sel.len() == 1 && sel[0] == '*' {
        assert(sel@ =~= "*"@);
        let ghost start = ids@.to_set();
        let mut k: usize = 0;
        while k < signals.len()
            invariant
                k <= signals@.len(),
                strictly_ascending(ids@),
                ids@.to_set() == start + Set::new(|id: u32| exists|j: int| 0 <= j < k && signals@[j].id == id),
            decreases signals@.len() - k,
        {
            insert_ascending(ids, signals[k].id);
            proof {
                assert(ids@.to_set() =~= start + Set::new(|id: u32| exists|j: int| 0 <= j < k + 1 && signals@[j].id == id)) by {
                    assert(signals@[k as int].id == signals@[k as int].id);
                }
            }
            k = k + 1;
        }
        assert(Set::new(|id: u32| exists|j: int| 0 <= j < signals@.len() && signals@[j].id == id) =~= all_signal_ids(signals@));
        return Ok(());
    }
    assert(sel@ != "*"@);
    if sel.len() > 0 && sel[0] == '#' {
        let raw = sel.as_slice();
        let digits = &raw[1..sel.len()];
        assert(digits@ =~= sel@.drop_first());
        match parse_u32_decimal(digits) {
            Err(e) => return Err(e),
            Ok(id) => {
                if !has_signal_id(signals, id) {
                    let mut m = String::new();
                    push_str(&mut m, "signal not found: '#");
                    push_dec(&mut m, id as u64);
                    push_str(&mut m, "'");
                    assert(m@ =~= "signal not found: '#"@ + dec(id as nat) + "'"@);
                    return Err(m);
                }
                insert_ascending(ids, id);
                assert(set![id] =~= Set::<u32>::empty().insert(id));
                assert(old(ids)@.to_set().insert(id) =~= old(ids)@.to_set() + set![id]);
                return Ok(());
            },
        }
    }
    if holds_glob(sel.as_slice()) {
        let ghost settled = portable(selector@) && names_portable(signals@);
        let g = compile_glob(selector);
        match g {
            Err(e) => return Err(e),
            Ok(glob) => {
                let ghost start = ids@.to_set();
                let mut matched = false;
                let mut k: usize = 0;
                while k < signals.len()
                    invariant
                        k <= signals@.len(),
                        strictly_ascending(ids@),
                        glob.pattern() == selector@,
                        settled == (portable(selector@) && names_portable(signals@)),
                        settled ==> ids@.to_set() == start + Set::new(|id: u32| exists|j: int| 0 <= j < k && glob_match(selector@, signals@[j].name@) && signals@[j].id == id),
                        settled ==> (matched <==> exists|j: int| 0 <= j < k && glob_match(selector@, #[trigger] signals@[j].name@)),
                        start.subset_of(ids@.to_set()),
                        ids@.to_set().subset_of(start + all_signal_ids(signals@)),
                    decreases signals@.len() - k,
                {
                    let ghost prev = ids@.to_set();
                    if glob_matches(&glob, signals[k].name.as_str()) {
                        insert_ascending(ids, signals[k].id);
                        matched = true;
                        proof {
                            assert(all_signal_ids(signals@).contains(signals@[k as int].id));
                        }
                    }
                    proof {
                        if settled {
                            assert(portable(signals@[k as int].name@));
                            assert(ids@.to_set() =~= start + Set::new(|id: u32| exists|j: int| 0 <= j < k + 1 && glob_match(selector@, signals@[j].name@) && signals@[j].id == id)) by {
                                assert(signals@[k as int].id == signals@[k as int].id);
                            }
                        }
                    }
                    k = k + 1;
                }
                assert(Set::new(|id: u32| exists|j: int| 0 <= j < signals@.len() && glob_match(selector@, signals@[j].name@) && signals@[j].id == id) =~= glob_signal_ids(signals@, selector@));
                if !matched {
                    return Err(selector_message("signal glob matched nothing: '", selector, "'"));
                }
                return Ok(());
            },
        }
    }
    proof {
        lemma_named_id_in(signals@, selector@);
    }
    match last_named_id(signals, selector) {
        None => Err(selector_message("signal not found: '", selector, "'")),
        Some(id) => {
            insert_ascending(ids, id);
            assert(set![id] =~= Set::<u32>::empty().insert(id));
            assert(old(ids)@.to_set().insert(id) =~= old(ids)@.to_set() + set![id]);
            Ok(())
        },
    }
}

} // verus!
