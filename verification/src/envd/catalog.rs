//! The env-wide signal catalog built from what each instance exposes.
use vstd::prelude::*;
use crate::protocol::SignalData;
use crate::signal_selectors::{build_outcome, stable_sorted_by_name, EnvSignalCatalog, EnvSignalCatalogEntry};
use crate::text::push_str;

verus! {

/// The instance and signal at each position of the instances' signal
/// lists taken one after another, for the first `n` instances.
pub open spec fn flat_signals(groups: Seq<(String, Vec<SignalData>)>, n: int) -> Seq<(Seq<char>, SignalData)>
    decreases n,
{
    if n <= 0 {
        Seq::empty()
    } else {
        flat_signals(groups, n - 1) + Seq::new(groups[n - 1].1@.len(), |j: int| (groups[n - 1].0@, groups[n - 1].1@[j]))
    }
}

/// The optional units of a signal, as text.
pub open spec fn units_text(u: Option<String>) -> Option<Seq<char>> {
    match u {
        Some(s) => Some(s@),
        None => None,
    }
}

/// `e` is the catalog entry of signal `s` of instance `inst`.
pub open spec fn entry_for(e: EnvSignalCatalogEntry, inst: Seq<char>, s: SignalData) -> bool {
    &&& e.instance@ == inst
    &&& e.local_id == s.id
    &&& e.signal_name@ == s.name@
    &&& e.qualified_name@ == inst + ":"@ + s.name@
    &&& e.signal_type == s.signal_type
    &&& units_text(e.units) == units_text(s.units)
}

/// `entries` holds one entry per signal, in instance order.
pub open spec fn entries_for(flat: Seq<(Seq<char>, SignalData)>, entries: Seq<EnvSignalCatalogEntry>) -> bool {
    &&& entries.len() == flat.len()
    &&& forall|k: int| 0 <= k < flat.len() ==> entry_for(#[trigger] entries[k], flat[k].0, flat[k].1)
}

/// Position `k` of the flattened signals is the first whose name holds ':'.
pub open spec fn first_colon(flat: Seq<(Seq<char>, SignalData)>, k: int) -> bool {
    &&& 0 <= k < flat.len()
    &&& flat[k].1.name@.contains(':')
    &&& forall|l: int| 0 <= l < k ==> !(#[trigger] flat[l]).1.name@.contains(':')
}

/// The message for a signal name holding the reserved ':'.
pub open spec fn colon_message(inst: Seq<char>, name: Seq<char>) -> Seq<char> {
    "instance '"@ + inst + "' exposes signal '"@ + name + "' with reserved ':'"@
}

fn contains_colon(s: &str) -> (r: bool)
    ensures
        r == s@.contains(':'),
{
    let cs = crate::text::str_chars(s);
    let mut i: usize = 0;
    while i < cs.len()
        invariant
            cs@ == s@,
            i <= cs@.len(),
            forall|j: int| 0 <= j < i ==> cs@[j] != ':',
        decreases cs.len() - i,
    {
        if cs[i] == ':' {
            assert(s@[i as int] == ':');
            return true;
        }
        i = i + 1;
    }
    false
}

/// Builds the env catalog from each instance's signals, given in the order
/// the instances are visited: a ':' in a signal name is refused first, then
/// the catalog checks apply to the entries ordered by qualified name.
pub fn build_env_signal_catalog(instance_signals: &[(String, Vec<SignalData>)]) -> (r: Result<EnvSignalCatalog, String>)
    ensures
        ({
            let flat = flat_signals(instance_signals@, instance_signals@.len() as int);
            if exists|k: int| #[trigger] first_colon(flat, k) {
                exists|k: int| #[trigger] first_colon(flat, k) && (r matches Err(m) && m@ == colon_message(flat[k].0, flat[k].1.name@))
            } else {
                exists|entries: Seq<EnvSignalCatalogEntry>, sorted: Seq<EnvSignalCatalogEntry>, perm: Seq<int>|
                    #[trigger] entries_for(flat, entries) && #[trigger] stable_sorted_by_name(entries, sorted, perm)
                        && build_outcome(sorted, r)
            }
        }),
{
    let ghost groups = instance_signals@;
    let mut entries: Vec<EnvSignalCatalogEntry> = Vec::new();
    let mut g: usize = 0;
    while g < instance_signals.len()
        invariant
            groups == instance_signals@,
            g <= groups.len(),
            entries_for(flat_signals(groups, g as int), entries@),
            forall|l: int| 0 <= l < flat_signals(groups, g as int).len() ==> !(#[trigger] flat_signals(groups, g as int)[l]).1.name@.contains(':'),
        decreases groups.len() - g,
    {
        let instance = &instance_signals[g].0;
        let signals = &instance_signals[g].1;
        let ghost before = flat_signals(groups, g as int);
        let ghost after = flat_signals(groups, g as int + 1);
        assert(after == before + Seq::new(groups[g as int].1@.len(), |j: int| (groups[g as int].0@, groups[g as int].1@[j])));
        let mut j: usize = 0;
        while j < signals.len()
            invariant
                groups == instance_signals@,
                g < groups.len(),
                *instance == groups[g as int].0,
                *signals == groups[g as int].1,
                before == flat_signals(groups, g as int),
                after == before + Seq::new(groups[g as int].1@.len(), |jj: int| (groups[g as int].0@, groups[g as int].1@[jj])),
                j <= signals@.len(),
                entries_for(after.take(before.len() + j), entries@),
                forall|l: int| 0 <= l < before.len() + j ==> !(#[trigger] after[l]).1.name@.contains(':'),
            decreases signals@.len() - j,
        {
            let s = &signals[j];
            assert(after[before.len() + j] == (instance@, *s));
            if contains_colon(s.name.as_str()) {
                let mut m = String::new();
                push_str(&mut m, "instance '");
                push_str(&mut m, instance.as_str());
                push_str(&mut m, "' exposes signal '");
                push_str(&mut m, s.name.as_str());
                push_str(&mut m, "' with reserved ':'");
                proof {
                    let k = before.len() + j;
                    let full = flat_signals(groups, groups.len() as int);
                    lemma_flat_prefix(groups, g as int + 1, groups.len() as int);
                    assert(full.take(after.len() as int) == after);
                    assert(after.len() <= full.len());
                    assert(k < after.len());
                    assert forall|l: int| 0 <= l < k implies !(#[trigger] full[l]).1.name@.contains(':') by {
                        assert(full.take(after.len() as int)[l] == full[l]);
                        assert(!after[l].1.name@.contains(':'));
                    }
                    assert(full.take(after.len() as int)[k] == full[k]);
                    assert(first_colon(full, k));
                    assert(m@ =~= colon_message(full[k].0, full[k].1.name@));
                }
                return Err(m);
            }
            let units = match &s.units {
                Some(u) => Some(u.clone()),
                None => None,
            };
            let mut qualified = String::new();
            push_str(&mut qualified, instance.as_str());
            push_str(&mut qualified, ":");
            push_str(&mut qualified, s.name.as_str());
            let e = EnvSignalCatalogEntry {
                instance: instance.clone(),
                local_id: s.id,
                signal_name: s.name.clone(),
                qualified_name: qualified,
                signal_type: s.signal_type,
                units,
            };
            let ghost prev = entries@;
            entries.push(e);
            proof {
                let k = before.len() + j;
                assert(entry_for(e, after[k].0, after[k].1));
                assert forall|x: int| 0 <= x < k + 1 implies entry_for(#[trigger] entries@[x], after.take(k + 1)[x].0, after.take(k + 1)[x].1) by {
                    if x < k {
                        assert(entries@[x] == prev[x]);
                        assert(after.take(k + 1)[x] == after.take(k)[x]);
                    }
                }
            }
            j = j + 1;
        }
        proof {
            assert(after.take(before.len() + j) =~= after);
        }
        g = g + 1;
    }
    let ghost flat = flat_signals(groups, groups.len() as int);
    proof {
        assert forall|k: int| !first_colon(flat, k) by {
            if 0 <= k < flat.len() {
                assert(!flat[k].1.name@.contains(':'));
            }
        }
    }
    let ghost entries_view = entries@;
    let r = EnvSignalCatalog::build(entries);
    proof {
        assert(entries_for(flat, entries_view));
    }
    r
}

proof fn lemma_flat_prefix(groups: Seq<(String, Vec<SignalData>)>, a: int, b: int)
    requires
        0 <= a <= b,
    ensures
        flat_signals(groups, a).len() <= flat_signals(groups, b).len(),
        flat_signals(groups, b).take(flat_signals(groups, a).len() as int) == flat_signals(groups, a),
    decreases b - a,
{
    if a < b {
        lemma_flat_prefix(groups, a, b - 1);
        let fa = flat_signals(groups, a);
        let fb1 = flat_signals(groups, b - 1);
        let fb = flat_signals(groups, b);
        assert(fb.take(fb1.len() as int) =~= fb1);
        assert(fb.take(fa.len() as int) =~= fb1.take(fa.len() as int));
    } else {
        assert(flat_signals(groups, b).take(flat_signals(groups, a).len() as int) =~= flat_signals(groups, a));
    }
}

} // verus!
