//! How an env daemon splits a read of signals across its instances: one
//! request per instance, in instance-name order, each asking for its
//! signals in the order they were asked for.
use vstd::prelude::*;
use crate::signal_selectors::{lex_less, lex_lt, lemma_lex_asym, lemma_lex_total, lemma_lex_trans};
use crate::text::str_chars;

verus! {

/// The requests of one instance: output position and local signal id.
pub type InstanceReads = (String, Vec<(usize, u32)>);

/// Item `i` of group `g`.
pub open spec fn item_at(gs: Seq<InstanceReads>, g: int, i: int) -> (usize, u32) {
    gs[g].1@[i]
}

/// `gs` splits `reqs`: instance names ascend, each group is not empty and
/// holds, by ascending position, exactly the requests of its instance.
pub open spec fn splits(gs: Seq<InstanceReads>, reqs: Seq<(String, u32)>) -> bool {
    &&& forall|g1: int, g2: int| 0 <= g1 < g2 < gs.len() ==> lex_lt(#[trigger] gs[g1].0@, #[trigger] gs[g2].0@)
    &&& forall|g: int| 0 <= g < gs.len() ==> (#[trigger] gs[g]).1@.len() > 0
    &&& forall|g: int, i: int| 0 <= g < gs.len() && 0 <= i < gs[g].1@.len() ==> {
        let it = #[trigger] item_at(gs, g, i);
        &&& it.0 < reqs.len()
        &&& reqs[it.0 as int].0@ == gs[g].0@
        &&& reqs[it.0 as int].1 == it.1
    }
    &&& forall|g: int, i: int, j: int| 0 <= g < gs.len() && 0 <= i < j < gs[g].1@.len() ==>
        (#[trigger] item_at(gs, g, i)).0 < (#[trigger] item_at(gs, g, j)).0
    &&& forall|o: int| 0 <= o < reqs.len() ==> #[trigger] placed(gs, o)
}

/// Some group holds output position `o`.
pub open spec fn placed(gs: Seq<InstanceReads>, o: int) -> bool {
    exists|g: int, i: int| 0 <= g < gs.len() && 0 <= i < gs[g].1@.len() && (#[trigger] item_at(gs, g, i)).0 == o
}

/// The group of `name`, if there is one.
fn find_group(gs: &Vec<InstanceReads>, name: &str) -> (r: Option<usize>)
    ensures
        match r {
            Some(g) => g < gs@.len() && gs@[g as int].0@ == name@,
            None => forall|g: int| 0 <= g < gs@.len() ==> gs@[g].0@ != name@,
        },
{
    let mut g: usize = 0;
    while g < gs.len()
        invariant
            g <= gs@.len(),
            forall|k: int| 0 <= k < g ==> gs@[k].0@ != name@,
        decreases gs@.len() - g,
    {
        if crate::sim::validation::same_text(gs[g].0.as_str(), name) {
            return Some(g);
        }
        g = g + 1;
    }
    None
}

/// Adds request `o` to the existing group `g`.
proof fn lemma_append_item(before: Seq<InstanceReads>, after: Seq<InstanceReads>, reqs: Seq<(String, u32)>, o: int, g: int)
    requires
        0 <= o < reqs.len(),
        reqs.len() <= usize::MAX,
        splits(before, reqs.take(o)),
        0 <= g < before.len(),
        before[g].0@ == reqs[o].0@,
        after.len() == before.len(),
        forall|k: int| 0 <= k < before.len() && k != g ==> #[trigger] after[k] == before[k],
        after[g].0 == before[g].0,
        after[g].1@ == before[g].1@.push((o as usize, reqs[o].1)),
    ensures
        splits(after, reqs.take(o + 1)),
{
    let r0 = reqs.take(o);
    let r1 = reqs.take(o + 1);
    assert forall|k: int, i: int| 0 <= k < after.len() && 0 <= i < after[k].1@.len() && !(k == g && i == before[g].1@.len())
        implies #[trigger] item_at(after, k, i) == item_at(before, k, i) by {}
    assert forall|g1: int, g2: int| 0 <= g1 < g2 < after.len() implies lex_lt(#[trigger] after[g1].0@, #[trigger] after[g2].0@) by {
        assert(after[g1].0@ == before[g1].0@);
        assert(after[g2].0@ == before[g2].0@);
    }
    assert forall|k: int| 0 <= k < after.len() implies (#[trigger] after[k]).1@.len() > 0 by {
        if k != g {
            assert(after[k] == before[k]);
        }
    }
    assert forall|k: int, i: int| 0 <= k < after.len() && 0 <= i < after[k].1@.len() implies {
        let it = #[trigger] item_at(after, k, i);
        &&& it.0 < r1.len()
        &&& r1[it.0 as int].0@ == after[k].0@
        &&& r1[it.0 as int].1 == it.1
    } by {
        if k == g && i == before[g].1@.len() {
            assert(item_at(after, k, i) == (o as usize, reqs[o].1));
            assert(r1[o] == reqs[o]);
        } else {
            let it = item_at(before, k, i);
            assert(it.0 < r0.len());
            assert(r1[it.0 as int] == r0[it.0 as int]);
            assert(after[k].0@ == before[k].0@);
        }
    }
    assert forall|k: int, i: int, j: int| 0 <= k < after.len() && 0 <= i < j < after[k].1@.len() implies
        (#[trigger] item_at(after, k, i)).0 < (#[trigger] item_at(after, k, j)).0 by {
        if k == g && j == before[g].1@.len() {
            assert(item_at(after, k, i) == item_at(before, k, i));
            assert(item_at(before, k, i).0 < r0.len());
            assert(item_at(after, k, j) == (o as usize, reqs[o].1));
        } else {
            assert(item_at(after, k, i) == item_at(before, k, i));
            assert(item_at(after, k, j) == item_at(before, k, j));
        }
    }
    assert forall|x: int| 0 <= x < r1.len() implies #[trigger] placed(after, x) by {
        if x == o {
            assert(item_at(after, g, before[g].1@.len() as int).0 == x);
        } else {
            assert(placed(before, x));
            let (k, i) = choose|k: int, i: int| 0 <= k < before.len() && 0 <= i < before[k].1@.len()
                && (#[trigger] item_at(before, k, i)).0 == x;
            assert(item_at(after, k, i) == item_at(before, k, i));
        }
    }
}

/// Opens a new group for request `o` at place `p` in name order.
proof fn lemma_new_group(before: Seq<InstanceReads>, reqs: Seq<(String, u32)>, o: int, p: int, grp: InstanceReads)
    requires
        0 <= o < reqs.len(),
        reqs.len() <= usize::MAX,
        splits(before, reqs.take(o)),
        0 <= p <= before.len(),
        grp.0@ == reqs[o].0@,
        grp.1@ == seq![(o as usize, reqs[o].1)],
        forall|k: int| 0 <= k < p ==> lex_lt(#[trigger] before[k].0@, grp.0@),
        p < before.len() ==> lex_lt(grp.0@, before[p].0@),
    ensures
        splits(before.insert(p, grp), reqs.take(o + 1)),
{
    let after = before.insert(p, grp);
    let r0 = reqs.take(o);
    let r1 = reqs.take(o + 1);
    assert forall|g1: int, g2: int| 0 <= g1 < g2 < after.len() implies lex_lt(#[trigger] after[g1].0@, #[trigger] after[g2].0@) by {
        if g2 < p {
            assert(after[g1] == before[g1] && after[g2] == before[g2]);
        } else if g2 == p {
            assert(after[g1] == before[g1]);
        } else if g1 < p {
            assert(after[g1] == before[g1] && after[g2] == before[g2 - 1]);
            if g2 - 1 > p {
                assert(lex_lt(before[p].0@, before[g2 - 1].0@));
                lemma_lex_trans(grp.0@, before[p].0@, before[g2 - 1].0@);
            }
            lemma_lex_trans(before[g1].0@, grp.0@, before[g2 - 1].0@);
        } else if g1 == p {
            assert(after[g2] == before[g2 - 1]);
            if g2 - 1 > p {
                assert(lex_lt(before[p].0@, before[g2 - 1].0@));
                lemma_lex_trans(grp.0@, before[p].0@, before[g2 - 1].0@);
            }
        } else {
            assert(after[g1] == before[g1 - 1] && after[g2] == before[g2 - 1]);
        }
    }
    assert forall|k: int| 0 <= k < after.len() implies (#[trigger] after[k]).1@.len() > 0 by {
        if k < p {
            assert(after[k] == before[k]);
        } else if k > p {
            assert(after[k] == before[k - 1]);
        }
    }
    assert forall|k: int, i: int| 0 <= k < after.len() && 0 <= i < after[k].1@.len() implies {
        let it = #[trigger] item_at(after, k, i);
        &&& it.0 < r1.len()
        &&& r1[it.0 as int].0@ == after[k].0@
        &&& r1[it.0 as int].1 == it.1
    } by {
        if k == p {
            assert(after[k] == grp);
            assert(item_at(after, k, i) == (o as usize, reqs[o].1));
            assert(r1[o] == reqs[o]);
        } else {
            let ok = if k < p { k } else { k - 1 };
            assert(after[k] == before[ok]);
            assert(item_at(after, k, i) == item_at(before, ok, i));
            let it = item_at(before, ok, i);
            assert(it.0 < r0.len());
            assert(r1[it.0 as int] == r0[it.0 as int]);
        }
    }
    assert forall|k: int, i: int, j: int| 0 <= k < after.len() && 0 <= i < j < after[k].1@.len() implies
        (#[trigger] item_at(after, k, i)).0 < (#[trigger] item_at(after, k, j)).0 by {
        if k != p {
            let ok = if k < p { k } else { k - 1 };
            assert(after[k] == before[ok]);
            assert(item_at(after, k, i) == item_at(before, ok, i));
            assert(item_at(after, k, j) == item_at(before, ok, j));
        }
    }
    assert forall|x: int| 0 <= x < r1.len() implies #[trigger] placed(after, x) by {
        if x == o {
            assert(after[p] == grp);
            assert(item_at(after, p, 0) == (o as usize, reqs[o].1));
        } else {
            assert(placed(before, x));
            let (k, i) = choose|k: int, i: int| 0 <= k < before.len() && 0 <= i < before[k].1@.len()
                && (#[trigger] item_at(before, k, i)).0 == x;
            if k < p {
                assert(after[k] == before[k]);
                assert(item_at(after, k, i) == item_at(before, k, i));
            } else {
                assert(after[k + 1] == before[k]);
                assert(item_at(after, k + 1, i) == item_at(before, k, i));
            }
        }
    }
}

/// Splits a read of signals, each given by its instance and local id, into
/// one request per instance, in instance-name order, each listing the
/// output positions and ids of that instance's signals in order.
pub fn group_by_instance(reqs: &[(String, u32)]) -> (gs: Vec<InstanceReads>)
    ensures
        splits(gs@, reqs@),
{
    let mut gs: Vec<InstanceReads> = Vec::new();
    let mut o: usize = 0;
    proof {
        assert(reqs@.take(0) =~= Seq::<(String, u32)>::empty());
    }
    while o < reqs.len()
        invariant
            o <= reqs@.len(),
            splits(gs@, reqs@.take(o as int)),
        decreases reqs@.len() - o,
    {
        let name = &reqs[o].0;
        let id = reqs[o].1;
        let ghost before = gs@;
        match find_group(&gs, name.as_str()) {
            Some(g) => {
                let mut grp = gs.remove(g);
                grp.1.push((o, id));
                gs.insert(g, grp);
                proof {
                    assert forall|k: int| 0 <= k < before.len() && k != g implies #[trigger] gs@[k] == before[k] by {}
                    lemma_append_item(before, gs@, reqs@, o as int, g as int);
                }
            },
            None => {
                let key = str_chars(name.as_str());
                let mut p: usize = 0;
                while p < gs.len()
                    invariant
                        gs@ == before,
                        p <= before.len(),
                        key@ == name@,
                        forall|k: int| 0 <= k < p ==> lex_lt(#[trigger] before[k].0@, name@),
                    ensures
                        gs@ == before,
                        p <= before.len(),
                        forall|k: int| 0 <= k < p ==> lex_lt(#[trigger] before[k].0@, name@),
                        p == before.len() || !lex_lt(before[p as int].0@, name@),
                    decreases before.len() - p,
                {
                    let here = str_chars(gs[p].0.as_str());
                    if !lex_less(here.as_slice(), key.as_slice()) {
                        break;
                    }
                    p = p + 1;
                }
                let mut items: Vec<(usize, u32)> = Vec::new();
                items.push((o, id));
                let grp: InstanceReads = (name.clone(), items);
                proof {
                    if p < before.len() {
                        lemma_lex_total(before[p as int].0@, name@);
                        assert(before[p as int].0@ != name@);
                    }
                    assert(grp.1@ =~= seq![(o as usize, reqs@[o as int].1)]);
                }
                gs.insert(p, grp);
                proof {
                    lemma_new_group(before, reqs@, o as int, p as int, grp);
                    assert(gs@ =~= before.insert(p as int, grp));
                }
            },
        }
        o = o + 1;
    }
    proof {
        assert(reqs@.take(reqs@.len() as int) =~= reqs@);
    }
    gs
}

} // verus!
