//! Containment mutation: moving entities between containers while
//! preserving the forest shape of the world, together with the laws of the
//! containment graph — membership uniqueness and absence of cycles.

use vstd::prelude::*;
use crate::types::ID;
use crate::model::{WorldM, lemma_locs_ok, locs_ok, remove_val};
use crate::world::World;

verus! {

/// Reaching limbo with some fuel still reaches it with more.
pub proof fn lemma_reaches_mono(m: WorldM, x: int, f1: nat, f2: nat)
    requires
        m.chain_reaches(x, f1),
        f1 <= f2,
    ensures
        m.chain_reaches(x, f2),
    decreases f1,
{
    if x != 0 {
        lemma_reaches_mono(m, m.ents[x].loc, (f1 - 1) as nat, (f2 - 1) as nat);
    }
}

/// A chain that stays clear of an entity reaches limbo.
pub proof fn lemma_avoid_implies_reach(m: WorldM, x: int, a: int, f: nat)
    requires
        m.chain_avoids(x, a, f),
    ensures
        m.chain_reaches(x, f),
    decreases f,
{
    if x != a && x != 0 {
        lemma_avoid_implies_reach(m, m.ents[x].loc, a, (f - 1) as nat);
    }
}

/// A chain that reaches limbo either passes through `a` or stays clear of
/// it, within the same fuel.
pub proof fn lemma_reaches_hits_or_avoids(m: WorldM, x: int, a: int, f: nat)
    requires
        m.chain_reaches(x, f),
    ensures
        m.chain_hits(x, a, f) || m.chain_avoids(x, a, f),
    decreases f,
{
    if x != a && x != 0 {
        lemma_reaches_hits_or_avoids(m, m.ents[x].loc, a, (f - 1) as nat);
    }
}

/// Passing through `y` and then from `y` through `z` passes through `z`.
pub proof fn lemma_hits_trans(m: WorldM, x: int, y: int, z: int, f1: nat, f2: nat)
    requires
        m.chain_hits(x, y, f1),
        m.chain_hits(y, z, f2),
    ensures
        m.chain_hits(x, z, f1 + f2),
    decreases f1,
{
    if x == y {
        lemma_hits_mono(m, y, z, f2, f1 + f2);
    } else {
        lemma_hits_trans(m, m.ents[x].loc, y, z, (f1 - 1) as nat, f2);
    }
}

pub proof fn lemma_hits_mono(m: WorldM, x: int, t: int, f1: nat, f2: nat)
    requires
        m.chain_hits(x, t, f1),
        f1 <= f2,
    ensures
        m.chain_hits(x, t, f2),
    decreases f1,
{
    if x != t && x != 0 {
        lemma_hits_mono(m, m.ents[x].loc, t, (f1 - 1) as nat, (f2 - 1) as nat);
    }
}

/// Passing through `t` and reaching limbo from `t` reaches limbo.
pub proof fn lemma_hits_then_reaches(m: WorldM, x: int, t: int, f: nat, g: nat)
    requires
        m.chain_hits(x, t, f),
        m.chain_reaches(t, g),
    ensures
        m.chain_reaches(x, f + g),
    decreases f,
{
    if x == t {
        lemma_reaches_mono(m, t, g, f + g);
    } else {
        lemma_hits_then_reaches(m, m.ents[x].loc, t, (f - 1) as nat, g);
    }
}

/// A chain caught in a containment cycle through `e` never reaches limbo.
pub proof fn lemma_cycle_no_reach(m: WorldM, x: int, e: int, f: nat, f0: nat, g: nat)
    requires
        e != 0,
        m.chain_hits(x, e, f),
        m.chain_hits(m.ents[e].loc, e, f0),
    ensures
        !m.chain_reaches(x, g),
    decreases g, f,
{
    if m.chain_reaches(x, g) {
        if x == e {
            lemma_cycle_no_reach(m, m.ents[e].loc, e, f0, f0, (g - 1) as nat);
        } else {
            lemma_cycle_no_reach(m, m.ents[x].loc, e, (f - 1) as nat, f0, (g - 1) as nat);
        }
    }
}

/// No cycles: in a well-formed world no entity is, directly or
/// transitively, its own container — its container's chain never passes
/// back through it, whatever the fuel.
pub proof fn lemma_no_cycles(m: WorldM, e: int, f: nat)
    requires
        m.inv(),
        m.valid(e),
        e != 0,
    ensures
        !m.chain_hits(m.loc_of(e), e, f),
{
    if m.chain_hits(m.loc_of(e), e, f) {
        let l = m.loc_of(e);
        let g = choose|g: nat| m.chain_reaches(e, g);
        assert(m.chain_reaches(e, g));
        assert(g > 0 && m.chain_reaches(m.ents[e].loc, (g - 1) as nat));
        lemma_cycle_no_reach(m, m.ents[e].loc, e, f, f, (g - 1) as nat);
    }
}

/// Containment uniqueness: every entity other than limbo is a member of
/// exactly one container's contents list — that of its recorded container
/// — and appears in that list exactly once.
pub proof fn lemma_containment_uniqueness(m: WorldM, e: int)
    requires
        m.inv(),
        m.valid(e),
        e != 0,
    ensures
        m.contents_of(m.loc_of(e)).contains(e),
        forall|c1: int, c2: int|
            m.valid(c1) && m.valid(c2) && #[trigger] m.contents_of(c1).contains(e)
                && #[trigger] m.contents_of(c2).contains(e) ==> c1 == c2,
        forall|c: int, j: int, k: int|
            #![trigger m.contents_of(c)[j], m.contents_of(c)[k]]
            m.valid(c) && 0 <= j < m.contents_of(c).len() && 0 <= k < m.contents_of(c).len()
                && m.contents_of(c)[j] == e && m.contents_of(c)[k] == e ==> j == k,
{
    assert(m.valid(m.loc_of(e)));
    assert forall|c1: int, c2: int|
        m.valid(c1) && m.valid(c2) && #[trigger] m.contents_of(c1).contains(e)
            && #[trigger] m.contents_of(c2).contains(e) implies c1 == c2 by {
        let j1 = choose|j: int| 0 <= j < m.contents_of(c1).len() && m.contents_of(c1)[j] == e;
        let j2 = choose|j: int| 0 <= j < m.contents_of(c2).len() && m.contents_of(c2)[j] == e;
        assert(m.loc_of(m.contents_of(c1)[j1]) == c1);
        assert(m.loc_of(m.contents_of(c2)[j2]) == c2);
    }
    assert forall|c: int, j: int, k: int|
        m.valid(c) && 0 <= j < m.contents_of(c).len() && 0 <= k < m.contents_of(c).len()
            && #[trigger] m.contents_of(c)[j] == e && #[trigger] m.contents_of(c)[k] == e
        implies j == k by {
        if j < k {
            assert(m.contents_of(c)[j] != m.contents_of(c)[k]);
        }
        if k < j {
            assert(m.contents_of(c)[k] != m.contents_of(c)[j]);
        }
    }
}

/// Two worlds of the same size whose locations agree everywhere except
/// possibly at `e`.
pub open spec fn agree_except(m1: WorldM, m2: WorldM, e: int) -> bool {
    &&& m1.ents.len() == m2.ents.len()
    &&& forall|y: int|
        m1.valid(y) && y != e ==> #[trigger] m2.ents[y].loc == m1.ents[y].loc
}

/// A chain that stays clear of `e` is untouched by a relocation of `e`.
pub proof fn lemma_avoids_agree(m1: WorldM, m2: WorldM, x: int, e: int, f: nat)
    requires
        locs_ok(m1),
        agree_except(m1, m2, e),
        m1.valid(x),
        m1.chain_avoids(x, e, f),
    ensures
        m2.chain_avoids(x, e, f),
    decreases f,
{
    if x != e && x != 0 {
        let nx = m1.ents[x].loc;
        assert(m1.loc_of(x) == nx);
        assert(m1.valid(nx));
        assert(m2.ents[x].loc == nx);
        lemma_avoids_agree(m1, m2, nx, e, (f - 1) as nat);
    }
}

/// A chain that passes through `e` still passes through `e` after a
/// relocation of `e`: the prefix before `e` is untouched.
pub proof fn lemma_hits_e_agree(m1: WorldM, m2: WorldM, x: int, e: int, f: nat)
    requires
        locs_ok(m1),
        agree_except(m1, m2, e),
        m1.valid(x),
        m1.chain_hits(x, e, f),
    ensures
        m2.chain_hits(x, e, f),
    decreases f,
{
    if x != e && x != 0 {
        let nx = m1.ents[x].loc;
        assert(m1.loc_of(x) == nx);
        assert(m1.valid(nx));
        assert(m2.ents[x].loc == nx);
        lemma_hits_e_agree(m1, m2, nx, e, (f - 1) as nat);
    }
}

/// Two entities sharing a container: neither sits on the other's chain,
/// so either may be moved under the other's container safely.
pub proof fn lemma_sibling_avoids(m: WorldM, x: int, e: int)
    requires
        m.inv(),
        m.valid(x),
        m.valid(e),
        x != e,
        e != 0,
        m.loc_of(e) == m.loc_of(x),
    ensures
        exists|fu: nat| m.chain_avoids(x, e, fu),
{
    let l = m.loc_of(x);
    let g = choose|g: nat| m.chain_reaches(x, g);
    assert(m.chain_reaches(x, g));
    lemma_reaches_hits_or_avoids(m, x, e, g);
    if m.chain_hits(x, e, g) {
        assert(x != 0);
        assert(g > 0 && m.chain_hits(m.ents[x].loc, e, (g - 1) as nat));
        lemma_cycle_no_reach(m, x, e, g, (g - 1) as nat, g);
    }
}

/// An ancestor of an entity's container is not inside that entity, so the
/// entity may be moved under it safely.
pub proof fn lemma_ancestor_avoids(m: WorldM, x: int, e: int, h: nat)
    requires
        m.inv(),
        m.valid(x),
        m.valid(e),
        x != e,
        e != 0,
        m.chain_hits(m.loc_of(e), x, h),
    ensures
        exists|fu: nat| m.chain_avoids(x, e, fu),
{
    let l = m.loc_of(x);
    let g = choose|g: nat| m.chain_reaches(x, g);
    assert(m.chain_reaches(x, g));
    lemma_reaches_hits_or_avoids(m, x, e, g);
    if m.chain_hits(x, e, g) {
        lemma_hits_trans(m, m.ents[e].loc, x, e, h, g);
        lemma_cycle_no_reach(m, x, e, g, h + g, g);
    }
}

/// Facts about removing one identity from a duplicate-free identity list.
proof fn lemma_remove_id_facts(s: Seq<int>, e: int)
    requires
        s.contains(e),
        forall|j: int, k: int| #![trigger s[j], s[k]] 0 <= j < k < s.len() ==> s[j] != s[k],
    ensures
        remove_val(s, e).len() == s.len() - 1,
        forall|g: int| #[trigger] remove_val(s, e).contains(g) <==> (s.contains(g) && g != e),
        forall|j: int, k: int|
            #![trigger remove_val(s, e)[j], remove_val(s, e)[k]]
            0 <= j < k < remove_val(s, e).len() ==> remove_val(s, e)[j] != remove_val(s, e)[k],
{
    let i = s.index_of(e);
    assert(0 <= i < s.len() && s[i] == e);
    let r = s.remove(i);
    s.remove_ensures(i);
    assert(remove_val(s, e) == r);
    assert forall|g: int| #[trigger] r.contains(g) implies (s.contains(g) && g != e) by {
        let j = choose|j: int| 0 <= j < r.len() && r[j] == g;
        if j < i {
            assert(s[j] == g);
            if g == e {
                assert(s[j] == s[i]);
            }
        } else {
            assert(s[j + 1] == g);
            if g == e {
                assert(s[j + 1] == s[i]);
            }
        }
    }
    assert forall|g: int| s.contains(g) && g != e implies #[trigger] r.contains(g) by {
        let j = choose|j: int| 0 <= j < s.len() && s[j] == g;
        if j < i {
            assert(r[j] == g);
        } else {
            assert(j != i);
            assert(r[j - 1] == g);
        }
    }
    assert forall|j: int, k: int| #![trigger r[j], r[k]] 0 <= j < k < r.len() implies r[j]
        != r[k] by {
        if k < i {
        } else if j < i {
            assert(r[j] == s[j] && r[k] == s[k + 1]);
        } else {
            assert(r[j] == s[j + 1] && r[k] == s[k + 1]);
        }
    }
}

/// The well-formedness of the world after a take-out, and after a put-in.
pub proof fn lemma_take_out_m_inv(m1: WorldM, e: int)
    requires
        m1.inv(),
        m1.valid(e),
        e != 0,
    ensures
        m1.take_out_m(e).inv(),
{
    let c = m1.loc_of(e);
    let m2 = m1.take_out_m(e);
    lemma_locs_ok(m1);
    assert(m1.valid(c));
    assert(e != c) by {
        if e == c {
            let l = m1.loc_of(e);
            let g = choose|g: nat| m1.chain_reaches(e, g);
            assert(m1.chain_reaches(e, g));
            lemma_self_loop_no_reach(m1, e, g);
        }
    }
    let sc = m1.contents_of(c);
    assert(sc.contains(e));
    assert forall|j: int, k: int| #![trigger sc[j], sc[k]] 0 <= j < k < sc.len() implies sc[j]
        != sc[k] by {
        assert(m1.contents_of(c)[j] != m1.contents_of(c)[k]);
    }
    lemma_remove_id_facts(sc, e);
    // The three updates in take_out_m touch c, e, and 0 only.
    assert forall|y: int| m1.valid(y) && y != e implies #[trigger] m2.ents[y].loc
        == m1.ents[y].loc by {}
    assert(m2.ents[e].loc == 0);
    assert(m2.ents.len() == m1.ents.len());
    let s0 = if c == 0 {
        remove_val(sc, e)
    } else {
        m1.contents_of(0)
    };
    assert(m2.contents_of(0) == s0.push(e));
    assert(c != 0 ==> m2.contents_of(c) == remove_val(sc, e));
    assert forall|y: int|
        m1.valid(y) && y != 0 && y != c implies #[trigger] m2.contents_of(y) == m1.contents_of(
        y,
    ) by {}
    // limbo never sits in a contents list, so e's old list did not hold 0
    // and the old limbo list did not hold e when c was not limbo.
    assert(c != 0 ==> !m1.contents_of(0).contains(e)) by {
        if c != 0 && m1.contents_of(0).contains(e) {
            let j = choose|j: int| 0 <= j < m1.contents_of(0).len() && m1.contents_of(0)[j] == e;
            assert(m1.loc_of(m1.contents_of(0)[j]) == 0);
        }
    }
    assert(m2.ents[0].loc == 0);
    assert(m2.placed_ok()) by {
        assert forall|id: int| 1 <= id < m2.n() implies m2.valid(#[trigger] m2.loc_of(id))
            && m2.contents_of(m2.loc_of(id)).contains(id) by {
            if id == e {
                assert(m2.contents_of(0)[s0.len() as int] == e);
            } else {
                let l = m1.loc_of(id);
                assert(m2.loc_of(id) == l);
                assert(m1.valid(l));
                assert(m1.contents_of(l).contains(id));
                if l == c {
                    assert(remove_val(sc, e).contains(id));
                    if c == 0 {
                        let j = choose|j: int|
                            0 <= j < remove_val(sc, e).len() && remove_val(sc, e)[j] == id;
                        assert(m2.contents_of(0)[j] == id);
                    }
                } else if l == 0 {
                    let j = choose|j: int|
                        0 <= j < m1.contents_of(0).len() && m1.contents_of(0)[j] == id;
                    assert(m2.contents_of(0)[j] == id);
                }
            }
        }
    }
    assert(m2.contents_ok()) by {
        assert forall|cc: int, j: int|
            m2.valid(cc) && 0 <= j < m2.contents_of(cc).len() implies m2.valid(
            #[trigger] m2.contents_of(cc)[j],
        ) && m2.contents_of(cc)[j] != 0 && m2.loc_of(m2.contents_of(cc)[j]) == cc by {
            if cc == 0 {
                if j < s0.len() {
                    assert(m2.contents_of(0)[j] == s0[j]);
                    assert(s0.contains(s0[j]));
                    if c == 0 {
                        assert(sc.contains(s0[j]) && s0[j] != e);
                        assert(m1.loc_of(s0[j]) == 0);
                    } else {
                        assert(m1.loc_of(s0[j]) == 0);
                    }
                    assert(m2.loc_of(s0[j]) == 0);
                } else {
                    assert(m2.contents_of(0)[j] == e);
                }
            } else if cc == c {
                let x = m2.contents_of(c)[j];
                assert(remove_val(sc, e).contains(x));
                assert(sc.contains(x) && x != e);
                assert(m1.loc_of(x) == c);
                assert(m2.loc_of(x) == c);
            } else {
                let x = m1.contents_of(cc)[j];
                assert(m1.valid(x) && x != 0 && m1.loc_of(x) == cc);
                assert(x != e) by {
                    if x == e {
                        assert(m1.loc_of(e) == cc);
                    }
                }
                assert(m2.loc_of(x) == cc);
            }
        }
    }
    assert(m2.contents_nodup()) by {
        assert forall|cc: int, j: int, k: int|
            m2.valid(cc) && 0 <= j < k < m2.contents_of(cc).len() implies #[trigger] m2.contents_of(
            cc,
        )[j] != #[trigger] m2.contents_of(cc)[k] by {
            if cc == 0 {
                if k < s0.len() {
                    assert(m2.contents_of(0)[j] == s0[j] && m2.contents_of(0)[k] == s0[k]);
                    if c == 0 {
                    } else {
                        assert(m1.contents_of(0)[j] != m1.contents_of(0)[k]);
                    }
                } else {
                    assert(m2.contents_of(0)[k] == e);
                    assert(m2.contents_of(0)[j] == s0[j]);
                    assert(s0.contains(s0[j]));
                    if c == 0 {
                        assert(s0[j] != e);
                    } else {
                        assert(!m1.contents_of(0).contains(e));
                    }
                }
            } else if cc == c {
            } else {
                assert(m2.contents_of(cc) == m1.contents_of(cc));
            }
        }
    }
    assert(m2.flags_nodup()) by {
        assert forall|x: int, j: int, k: int|
            m2.valid(x) && 0 <= j < k < m2.flags_of(x).len() implies #[trigger] m2.flags_of(x)[j]
            != #[trigger] m2.flags_of(x)[k] by {
            assert(m2.flags_of(x) == m1.flags_of(x));
            assert(m1.flags_of(x)[j] != m1.flags_of(x)[k]);
        }
    }
    assert(m2.links_nodup()) by {
        assert forall|x: int, j: int, k: int|
            m2.valid(x) && m2.is_room(x) && 0 <= j < k < m2.links_of(x).len()
            implies #[trigger] m2.links_of(x)[j].0 != #[trigger] m2.links_of(x)[k].0 by {
            assert(m2.ents[x].room == m1.ents[x].room);
            assert(m2.links_of(x) == m1.links_of(x));
            assert(m1.links_of(x)[j] == m2.links_of(x)[j]);
            assert(m1.links_of(x)[k] == m2.links_of(x)[k]);
        }
    }
    assert(m2.grounded()) by {
        assert forall|x: int| m2.valid(x) implies exists|fu: nat| m2.chain_reaches(x, fu) by {
            let l = m1.loc_of(x);
            let g = choose|g: nat| m1.chain_reaches(x, g);
            assert(m1.chain_reaches(x, g));
            lemma_reaches_hits_or_avoids(m1, x, e, g);
            assert(agree_except(m1, m2, e));
            if m1.chain_avoids(x, e, g) {
                lemma_avoids_agree(m1, m2, x, e, g);
                lemma_avoid_implies_reach(m2, x, e, g);
            } else {
                lemma_hits_e_agree(m1, m2, x, e, g);
                assert(m2.chain_reaches(e, 1)) by {
                    assert(m2.ents[e].loc == 0);
                    assert(m2.chain_reaches(0, 0));
                }
                lemma_hits_then_reaches(m2, x, e, g, 1);
            }
        }
    }
}

/// An entity recorded as its own container never reaches limbo.
pub proof fn lemma_self_loop_no_reach(m: WorldM, e: int, g: nat)
    requires
        e != 0,
        m.ents[e].loc == e,
    ensures
        !m.chain_reaches(e, g),
    decreases g,
{
    if g > 0 {
        lemma_self_loop_no_reach(m, e, (g - 1) as nat);
    }
}

pub proof fn lemma_put_in_m_inv(m1: WorldM, e: int, c: int)
    requires
        m1.inv(),
        m1.valid(e),
        e != 0,
        m1.valid(c),
        c != e,
        m1.loc_of(e) == 0,
        exists|fu: nat| m1.chain_avoids(c, e, fu),
    ensures
        m1.put_in_m(e, c).inv(),
{
    let m2 = m1.put_in_m(e, c);
    lemma_locs_ok(m1);
    let s0 = m1.contents_of(0);
    assert(s0.contains(e));
    assert forall|j: int, k: int| #![trigger s0[j], s0[k]] 0 <= j < k < s0.len() implies s0[j]
        != s0[k] by {
        assert(m1.contents_of(0)[j] != m1.contents_of(0)[k]);
    }
    lemma_remove_id_facts(s0, e);
    assert forall|y: int| m1.valid(y) && y != e implies #[trigger] m2.ents[y].loc
        == m1.ents[y].loc by {}
    assert(m2.ents[e].loc == c);
    assert(m2.ents.len() == m1.ents.len());
    let sc = if c == 0 {
        remove_val(s0, e)
    } else {
        m1.contents_of(c)
    };
    assert(m2.contents_of(c) == sc.push(e));
    assert(c != 0 ==> m2.contents_of(0) == remove_val(s0, e));
    assert forall|y: int|
        m1.valid(y) && y != 0 && y != c implies #[trigger] m2.contents_of(y) == m1.contents_of(
        y,
    ) by {}
    assert(c != 0 ==> !m1.contents_of(c).contains(e)) by {
        if c != 0 && m1.contents_of(c).contains(e) {
            let j = choose|j: int| 0 <= j < m1.contents_of(c).len() && m1.contents_of(c)[j] == e;
            assert(m1.loc_of(m1.contents_of(c)[j]) == c);
        }
    }
    assert(m2.ents[0].loc == 0);
    assert(m2.placed_ok()) by {
        assert forall|id: int| 1 <= id < m2.n() implies m2.valid(#[trigger] m2.loc_of(id))
            && m2.contents_of(m2.loc_of(id)).contains(id) by {
            if id == e {
                assert(m2.contents_of(c)[sc.len() as int] == e);
            } else {
                let l = m1.loc_of(id);
                assert(m2.loc_of(id) == l);
                assert(m1.valid(l));
                assert(m1.contents_of(l).contains(id));
                if l == 0 {
                    assert(remove_val(s0, e).contains(id));
                    if c == 0 {
                        let j = choose|j: int|
                            0 <= j < remove_val(s0, e).len() && remove_val(s0, e)[j] == id;
                        assert(m2.contents_of(0)[j] == id);
                    }
                } else if l == c {
                    let j = choose|j: int|
                        0 <= j < m1.contents_of(c).len() && m1.contents_of(c)[j] == id;
                    assert(m2.contents_of(c)[j] == id);
                }
            }
        }
    }
    assert(m2.contents_ok()) by {
        assert forall|cc: int, j: int|
            m2.valid(cc) && 0 <= j < m2.contents_of(cc).len() implies m2.valid(
            #[trigger] m2.contents_of(cc)[j],
        ) && m2.contents_of(cc)[j] != 0 && m2.loc_of(m2.contents_of(cc)[j]) == cc by {
            if cc == c {
                if j < sc.len() {
                    assert(m2.contents_of(c)[j] == sc[j]);
                    assert(sc.contains(sc[j]));
                    if c == 0 {
                        assert(s0.contains(sc[j]) && sc[j] != e);
                        assert(m1.loc_of(sc[j]) == 0);
                    } else {
                        assert(m1.loc_of(sc[j]) == c);
                    }
                    assert(m2.loc_of(sc[j]) == c);
                } else {
                    assert(m2.contents_of(c)[j] == e);
                    assert(m2.loc_of(e) == c);
                }
            } else if cc == 0 {
                let x = m2.contents_of(0)[j];
                assert(remove_val(s0, e).contains(x));
                assert(s0.contains(x) && x != e);
                assert(m1.loc_of(x) == 0);
                assert(m2.loc_of(x) == 0);
            } else {
                let x = m1.contents_of(cc)[j];
                assert(m1.valid(x) && x != 0 && m1.loc_of(x) == cc);
                assert(x != e) by {
                    if x == e {
                        assert(m1.loc_of(e) == cc);
                    }
                }
                assert(m2.loc_of(x) == cc);
            }
        }
    }
    assert(m2.contents_nodup()) by {
        assert forall|cc: int, j: int, k: int|
            m2.valid(cc) && 0 <= j < k < m2.contents_of(cc).len() implies #[trigger] m2.contents_of(
            cc,
        )[j] != #[trigger] m2.contents_of(cc)[k] by {
            if cc == c {
                if k < sc.len() {
                    assert(m2.contents_of(c)[j] == sc[j] && m2.contents_of(c)[k] == sc[k]);
                    if c == 0 {
                    } else {
                        assert(m1.contents_of(c)[j] != m1.contents_of(c)[k]);
                    }
                } else {
                    assert(m2.contents_of(c)[k] == e);
                    assert(m2.contents_of(c)[j] == sc[j]);
                    assert(sc.contains(sc[j]));
                    if c == 0 {
                        assert(sc[j] != e);
                    } else {
                        assert(!m1.contents_of(c).contains(e));
                    }
                }
            } else if cc == 0 {
            } else {
                assert(m2.contents_of(cc) == m1.contents_of(cc));
            }
        }
    }
    assert(m2.flags_nodup()) by {
        assert forall|x: int, j: int, k: int|
            m2.valid(x) && 0 <= j < k < m2.flags_of(x).len() implies #[trigger] m2.flags_of(x)[j]
            != #[trigger] m2.flags_of(x)[k] by {
            assert(m2.flags_of(x) == m1.flags_of(x));
            assert(m1.flags_of(x)[j] != m1.flags_of(x)[k]);
        }
    }
    assert(m2.links_nodup()) by {
        assert forall|x: int, j: int, k: int|
            m2.valid(x) && m2.is_room(x) && 0 <= j < k < m2.links_of(x).len()
            implies #[trigger] m2.links_of(x)[j].0 != #[trigger] m2.links_of(x)[k].0 by {
            assert(m2.ents[x].room == m1.ents[x].room);
            assert(m2.links_of(x) == m1.links_of(x));
            assert(m1.links_of(x)[j] == m2.links_of(x)[j]);
            assert(m1.links_of(x)[k] == m2.links_of(x)[k]);
        }
    }
    assert(m2.grounded()) by {
        let fu = choose|fu: nat| m1.chain_avoids(c, e, fu);
        assert(m1.chain_avoids(c, e, fu));
        assert(agree_except(m1, m2, e));
        lemma_avoids_agree(m1, m2, c, e, fu);
        assert(m2.chain_reaches(e, fu + 1)) by {
            lemma_avoid_implies_reach(m2, c, e, fu);
            assert(m2.ents[e].loc == c);
            lemma_reaches_mono(m2, c, fu, fu);
        }
        assert forall|x: int| m2.valid(x) implies exists|fuel: nat| m2.chain_reaches(
            x,
            fuel,
        ) by {
            let l = m1.loc_of(x);
            let g = choose|g: nat| m1.chain_reaches(x, g);
            assert(m1.chain_reaches(x, g));
            lemma_reaches_hits_or_avoids(m1, x, e, g);
            if m1.chain_avoids(x, e, g) {
                lemma_avoids_agree(m1, m2, x, e, g);
                lemma_avoid_implies_reach(m2, x, e, g);
            } else {
                lemma_hits_e_agree(m1, m2, x, e, g);
                lemma_hits_then_reaches(m2, x, e, g, fu + 1);
            }
        }
    }
}

/// Finds the index of an identity known to sit in the list.
fn find_id_index(v: &Vec<ID>, e: ID) -> (r: usize)
    requires
        v@.map_values(|x: ID| x as int).contains(e as int),
    ensures
        r < v@.len(),
        v@[r as int] == e,
{
    let n = v.len();
    let mut i: usize = 0;
    proof {
        let mv = v@.map_values(|x: ID| x as int);
        let j = choose|j: int| 0 <= j < mv.len() && mv[j] == e as int;
        assert(v@[j] == e);
    }
    while i < n
        invariant
            i <= n,
            n == v@.len(),
            exists|j: int| i <= j < v@.len() && v@[j] == e,
        decreases n - i,
    {
        if v[i] == e {
            return i;
        }
        proof {
            let j = choose|j: int| i <= j < v@.len() && v@[j] == e;
            assert(j >= i + 1);
        }
        i = i + 1;
    }
    proof {
        assert(false);
    }
    0
}

impl World {
    /// Takes an entity out of its container and parks it in limbo.  The
    /// stated container must be the entity's actual one: containment
    /// mutation fails loudly rather than corrupting the forest.
    pub fn take_out(&mut self, e: ID, c: ID)
        requires
            old(self).wf(),
            old(self)@.valid(e as int),
            e as int != 0,
            old(self)@.loc_of(e as int) == c as int,
        ensures
            final(self).wf(),
            final(self)@ =~= old(self)@.take_out_m(e as int),
    {
        let ghost m1 = self@;
        proof {
            assert(m1.valid(c as int));
            assert(m1.contents_of(c as int).contains(e as int));
            let j = choose|j: int|
                0 <= j < m1.contents_of(c as int).len() && m1.contents_of(c as int)[j]
                    == e as int;
            assert(self.entities@[c as int].contents@.map_values(|x: ID| x as int)[j]
                == e as int);
        }
        let idx = find_id_index(&self.entities[c].contents, e);
        self.entities[c].contents.remove(idx);
        self.entities[e].loc = 0;
        self.entities[0].contents.push(e);
        proof {
            let sc = m1.contents_of(c as int);
            assert(sc[idx as int] == e as int);
            assert(sc.contains(e as int));
            let i0 = sc.index_of(e as int);
            assert(0 <= i0 < sc.len() && sc[i0] == e as int);
            assert(i0 == idx as int) by {
                if i0 != idx as int {
                    assert(m1.contents_of(c as int)[i0] != m1.contents_of(c as int)[idx as int]);
                }
            }
            assert(remove_val(sc, e as int) == sc.remove(idx as int));
            sc.remove_ensures(idx as int);
            let vc = old(self).entities@[c as int].contents@;
            vc.remove_ensures(idx as int);
            assert(vc.map_values(|x: ID| x as int) == sc);
            assert(self@.ents =~~= m1.take_out_m(e as int).ents);
            assert(self@ =~~= m1.take_out_m(e as int));
            lemma_take_out_m_inv(m1, e as int);
        }
    }

    /// Moves an entity out of limbo into the given container.  The caller
    /// must know that the container does not sit inside the entity; the
    /// laws above discharge that for the common cases.
    pub fn put_in(&mut self, e: ID, c: ID)
        requires
            old(self).wf(),
            old(self)@.valid(e as int),
            e as int != 0,
            old(self)@.valid(c as int),
            c != e,
            old(self)@.loc_of(e as int) == 0,
            exists|fu: nat| old(self)@.chain_avoids(c as int, e as int, fu),
        ensures
            final(self).wf(),
            final(self)@ =~= old(self)@.put_in_m(e as int, c as int),
    {
        let ghost m1 = self@;
        proof {
            assert(m1.contents_of(0).contains(e as int));
            let j = choose|j: int|
                0 <= j < m1.contents_of(0).len() && m1.contents_of(0)[j] == e as int;
            assert(self.entities@[0].contents@.map_values(|x: ID| x as int)[j] == e as int);
        }
        let idx = find_id_index(&self.entities[0].contents, e);
        self.entities[0].contents.remove(idx);
        self.entities[e].loc = c;
        self.entities[c].contents.push(e);
        proof {
            let s0 = m1.contents_of(0);
            assert(s0[idx as int] == e as int);
            assert(s0.contains(e as int));
            let i0 = s0.index_of(e as int);
            assert(0 <= i0 < s0.len() && s0[i0] == e as int);
            assert(i0 == idx as int) by {
                if i0 != idx as int {
                    assert(m1.contents_of(0)[i0] != m1.contents_of(0)[idx as int]);
                }
            }
            assert(remove_val(s0, e as int) == s0.remove(idx as int));
            s0.remove_ensures(idx as int);
            let v0 = old(self).entities@[0].contents@;
            v0.remove_ensures(idx as int);
            assert(v0.map_values(|x: ID| x as int) == s0);
            assert(self@.ents =~~= m1.put_in_m(e as int, c as int).ents);
            assert(self@ =~~= m1.put_in_m(e as int, c as int));
            lemma_put_in_m_inv(m1, e as int, c as int);
        }
    }

    /// Walks the container chain upward from `x`, reporting whether it
    /// reaches limbo within `fuel` steps without passing through `a`.
    pub fn chain_avoids_check(&self, x: ID, a: ID, fuel: usize) -> (r: bool)
        requires
            self.wf(),
            self@.valid(x as int),
        ensures
            r == self@.chain_avoids(x as int, a as int, fuel as nat),
    {
        proof {
            crate::model::lemma_locs_ok(self@);
        }
        let mut cur = x;
        let mut remaining = fuel;
        loop
            invariant
                self.wf(),
                self@.valid(cur as int),
                remaining <= fuel,
                self@.chain_avoids(x as int, a as int, fuel as nat) == self@.chain_avoids(
                    cur as int,
                    a as int,
                    remaining as nat,
                ),
                locs_ok(self@),
            decreases remaining,
        {
            if cur == a {
                return false;
            }
            if cur == 0 {
                return true;
            }
            if remaining == 0 {
                return false;
            }
            proof {
                assert(self@.valid(self@.loc_of(cur as int)));
            }
            let next = self.entities[cur].loc;
            cur = next;
            remaining = remaining - 1;
        }
    }
}

} // verus!
