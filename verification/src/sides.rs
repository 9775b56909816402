//! The side list of a DreamView target (one screen area per light segment): grouping
//! the segments that follow the same area, and placing each group's band colours back
//! on its segments.

use vstd::prelude::*;

verus! {

/// The indices below `n` whose side occurs at no smaller index, in order.
pub open spec fn first_seen(s: Seq<Seq<char>>, n: int) -> Seq<int>
    decreases n,
{
    if n <= 0 {
        Seq::empty()
    } else if s.take(n - 1).contains(s[n - 1]) {
        first_seen(s, n - 1)
    } else {
        first_seen(s, n - 1).push(n - 1)
    }
}

/// The indices below `n` whose side is `x`, in order.
pub open spec fn positions(s: Seq<Seq<char>>, x: Seq<char>, n: int) -> Seq<int>
    decreases n,
{
    if n <= 0 {
        Seq::empty()
    } else if s[n - 1] == x {
        positions(s, x, n - 1).push(n - 1)
    } else {
        positions(s, x, n - 1)
    }
}

/// One group per distinct side, in the order sides first appear, holding every index
/// of that side in increasing order.
pub open spec fn spec_side_groups(s: Seq<Seq<char>>) -> Seq<Seq<int>> {
    let f = first_seen(s, s.len() as int);
    Seq::new(f.len(), |j: int| positions(s, s[f[j]], s.len() as int))
}

/// The indices of a group as integers.
pub open spec fn idx_view(g: Seq<usize>) -> Seq<int> {
    g.map_values(|k: usize| k as int)
}

/// The groups as sequences of integers.
pub open spec fn groups_view(g: Seq<Vec<usize>>) -> Seq<Seq<int>> {
    g.map_values(|v: Vec<usize>| idx_view(v@))
}

/// Some index of `f` has side `x`.
pub open spec fn has_group(s: Seq<Seq<char>>, f: Seq<int>, x: Seq<char>) -> bool {
    exists|j: int| 0 <= j < f.len() && s[#[trigger] f[j]] == x
}

proof fn lemma_first_seen_facts(s: Seq<Seq<char>>, n: int)
    requires
        0 <= n <= s.len(),
    ensures
        forall|j: int| 0 <= j < first_seen(s, n).len() ==> 0 <= #[trigger] first_seen(s, n)[j] < n,
        forall|j1: int, j2: int|
            0 <= j1 < first_seen(s, n).len() && 0 <= j2 < first_seen(s, n).len() && j1 != j2 ==> s[
            #[trigger] first_seen(s, n)[j1]] != s[#[trigger] first_seen(s, n)[j2]],
        forall|k: int| 0 <= k < n ==> has_group(s, first_seen(s, n), #[trigger] s[k]),
    decreases n,
{
    if n > 0 {
        lemma_first_seen_facts(s, n - 1);
        let p = first_seen(s, n - 1);
        let f = first_seen(s, n);
        if s.take(n - 1).contains(s[n - 1]) {
            let k0 = choose|k0: int| 0 <= k0 < n - 1 && #[trigger] s.take(n - 1)[k0] == s[n - 1];
            assert(s[k0] == s[n - 1]);
            assert forall|k: int| 0 <= k < n implies has_group(s, f, #[trigger] s[k]) by {
                if k == n - 1 {
                    assert(has_group(s, p, s[k0]));
                    let j0 = choose|j: int| 0 <= j < p.len() && s[#[trigger] p[j]] == s[k0];
                    assert(s[f[j0]] == s[k]);
                }
            }
        } else {
            assert(f == p.push(n - 1));
            assert forall|j1: int, j2: int|
                0 <= j1 < f.len() && 0 <= j2 < f.len() && j1 != j2 implies s[#[trigger] f[j1]]
                != s[#[trigger] f[j2]] by {
                if j1 == p.len() {
                    assert(f[j2] == p[j2]);
                    assert(s.take(n - 1)[p[j2]] == s[p[j2]]);
                } else if j2 == p.len() {
                    assert(f[j1] == p[j1]);
                    assert(s.take(n - 1)[p[j1]] == s[p[j1]]);
                } else {
                    assert(f[j1] == p[j1] && f[j2] == p[j2]);
                }
            }
            assert forall|k: int| 0 <= k < n implies has_group(s, f, #[trigger] s[k]) by {
                if k == n - 1 {
                    assert(f[p.len() as int] == n - 1);
                } else {
                    assert(has_group(s, p, s[k]));
                    let j0 = choose|j: int| 0 <= j < p.len() && s[#[trigger] p[j]] == s[k];
                    assert(f[j0] == p[j0]);
                }
            }
        }
    }
}

proof fn lemma_positions_facts(s: Seq<Seq<char>>, x: Seq<char>, n: int)
    requires
        0 <= n <= s.len(),
    ensures
        forall|m: int| 0 <= m < positions(s, x, n).len() ==> 0 <= #[trigger] positions(s, x, n)[m] < n
            && s[positions(s, x, n)[m]] == x,
        forall|m1: int, m2: int|
            0 <= m1 < m2 < positions(s, x, n).len() ==> #[trigger] positions(s, x, n)[m1]
                < #[trigger] positions(s, x, n)[m2],
        forall|k: int| 0 <= k < n && #[trigger] s[k] == x ==> positions(s, x, n).contains(k),
        !s.take(n).contains(x) ==> positions(s, x, n).len() == 0,
    decreases n,
{
    if n > 0 {
        lemma_positions_facts(s, x, n - 1);
        let p = positions(s, x, n - 1);
        if s[n - 1] == x {
            assert(s.take(n)[n - 1] == x);
            assert forall|k: int| 0 <= k < n && #[trigger] s[k] == x implies positions(s, x, n).contains(k) by {
                if k == n - 1 {
                    assert(positions(s, x, n)[p.len() as int] == k);
                } else {
                    assert(p.contains(k));
                    let m0 = choose|m: int| 0 <= m < p.len() && #[trigger] p[m] == k;
                    assert(positions(s, x, n)[m0] == k);
                }
            }
        } else {
            if !s.take(n).contains(x) {
                assert forall|k: int| 0 <= k < n - 1 implies #[trigger] s.take(n - 1)[k] != x by {
                    assert(s.take(n)[k] == s[k]);
                }
            }
        }
    }
}

/// Groups the indices of `sides` by side (see [`spec_side_groups`]).
pub fn side_groups(sides: &[String]) -> (groups: Vec<Vec<usize>>)
    ensures
        groups_view(groups@) == spec_side_groups(sides@.map_values(|t: String| t@)),
{
    let ghost s = sides@.map_values(|t: String| t@);
    let n = sides.len();
    let mut groups: Vec<Vec<usize>> = Vec::new();
    let mut i: usize = 0;
    while i < n
        invariant
            i <= n,
            n == s.len(),
            s == sides@.map_values(|t: String| t@),
            groups@.len() == first_seen(s, i as int).len(),
            forall|j: int| 0 <= j < groups@.len() ==> idx_view(#[trigger] groups@[j]@) == positions(
                s,
                s[first_seen(s, i as int)[j]],
                i as int,
            ),
            forall|j: int| 0 <= j < groups@.len() ==> (#[trigger] groups@[j]@).len() > 0 && groups@[j]@[0]
                == first_seen(s, i as int)[j],
        decreases n - i,
    {
        proof {
            lemma_first_seen_facts(s, i as int);
        }
        let ghost f = first_seen(s, i as int);
        let mut found: Option<usize> = None;
        let mut j: usize = 0;
        while j < groups.len()
            invariant
                j <= groups@.len(),
                i < n,
                n == s.len(),
                s == sides@.map_values(|t: String| t@),
                f == first_seen(s, i as int),
                groups@.len() == f.len(),
                forall|jj: int| 0 <= jj < groups@.len() ==> (#[trigger] groups@[jj]@).len() > 0
                    && groups@[jj]@[0] == f[jj],
                forall|jj: int| 0 <= jj < f.len() ==> 0 <= #[trigger] f[jj] < i,
                match found {
                    Some(jf) => jf < groups@.len() && s[f[jf as int]] == s[i as int],
                    None => forall|jj: int| 0 <= jj < j ==> s[#[trigger] f[jj]] != s[i as int],
                },
            decreases groups@.len() - j,
        {
            if found.is_none() {
                let first = groups[j][0];
                if sides[first] == sides[i] {
                    found = Some(j);
                }
            }
            j = j + 1;
        }
        let ghost old_groups = groups@;
        match found {
            Some(jf) => {
                proof {
                    let k0 = f[jf as int];
                    assert(s.take(i as int)[k0] == s[i as int]);
                    assert(first_seen(s, i + 1) == f);
                }
                let mut g = groups.remove(jf);
                g.push(i);
                groups.insert(jf, g);
                proof {
                    let f1 = first_seen(s, i + 1);
                    assert forall|jj: int| 0 <= jj < groups@.len() implies idx_view(
                        #[trigger] groups@[jj]@,
                    ) == positions(s, s[f1[jj]], i + 1) by {
                        if jj == jf {
                            assert(idx_view(groups@[jj]@) =~= idx_view(old_groups[jj]@).push(
                                i as int,
                            ));
                        } else {
                            assert(groups@[jj] == old_groups[jj]);
                            assert(s[f[jj]] != s[f[jf as int]]);
                        }
                    }
                    assert forall|jj: int| 0 <= jj < groups@.len() implies (
                    #[trigger] groups@[jj]@).len() > 0 && groups@[jj]@[0] == f1[jj] by {
                        if jj != jf {
                            assert(groups@[jj] == old_groups[jj]);
                        }
                    }
                }
            },
            None => {
                proof {
                    assert forall|k: int| 0 <= k < i implies #[trigger] s[k] != s[i as int] by {
                        assert(has_group(s, f, s[k]));
                    }
                    assert(!s.take(i as int).contains(s[i as int]));
                    lemma_positions_facts(s, s[i as int], i as int);
                }
                let mut g: Vec<usize> = Vec::new();
                g.push(i);
                groups.push(g);
                proof {
                    let f1 = first_seen(s, i + 1);
                    assert(f1 == f.push(i as int));
                    assert forall|jj: int| 0 <= jj < groups@.len() implies idx_view(
                        #[trigger] groups@[jj]@,
                    ) == positions(s, s[f1[jj]], i + 1) by {
                        if jj == f.len() {
                            assert(idx_view(groups@[jj]@) =~= seq![i as int]);
                            assert(positions(s, s[i as int], i as int) =~= Seq::<int>::empty());
                        } else {
                            assert(groups@[jj] == old_groups[jj]);
                            assert(s[f[jj]] != s[i as int]);
                        }
                    }
                    assert forall|jj: int| 0 <= jj < groups@.len() implies (
                    #[trigger] groups@[jj]@).len() > 0 && groups@[jj]@[0] == f1[jj] by {
                        if jj != f.len() {
                            assert(groups@[jj] == old_groups[jj]);
                        }
                    }
                }
            },
        }
        i = i + 1;
    }
    assert(groups_view(groups@) =~= spec_side_groups(s));
    groups
}

/// Index `i` is an entry of some group of `g`.
pub open spec fn in_some_group(g: Seq<Seq<int>>, i: int) -> bool {
    exists|j: int, m: int| 0 <= j < g.len() && 0 <= m < g[j].len() && #[trigger] g[j][m] == i
}

/// The groups of [`side_groups`] split the segments: each group holds indices of one
/// side only, every index below the number of sides is in some group, and no index
/// appears twice, in one group or in two.
pub proof fn lemma_side_groups_partition(s: Seq<Seq<char>>)
    ensures
        ({
            let g = spec_side_groups(s);
            &&& forall|j: int, m: int|
                0 <= j < g.len() && 0 <= m < g[j].len() ==> 0 <= #[trigger] g[j][m] < s.len() && s[g[j][m]]
                    == s[g[j][0]]
            &&& forall|i: int| 0 <= i < s.len() ==> #[trigger] in_some_group(g, i)
            &&& forall|j1: int, m1: int, j2: int, m2: int|
                0 <= j1 < g.len() && 0 <= m1 < g[j1].len() && 0 <= j2 < g.len() && 0 <= m2 < g[j2].len()
                    && #[trigger] g[j1][m1] == #[trigger] g[j2][m2] ==> j1 == j2 && m1 == m2
        }),
{
    let n = s.len() as int;
    let f = first_seen(s, n);
    let g = spec_side_groups(s);
    lemma_first_seen_facts(s, n);
    assert forall|j: int| 0 <= j < f.len() implies #[trigger] g[j].len() > 0 && g[j][0] == f[j]
        && forall|m: int| 0 <= m < g[j].len() ==> 0 <= #[trigger] g[j][m] < n && s[g[j][m]] == s[f[j]]
        && (forall|m2: int| 0 <= m < m2 < g[j].len() ==> g[j][m] < #[trigger] g[j][m2]) by {
        lemma_positions_facts(s, s[f[j]], n);
        assert(positions(s, s[f[j]], n).contains(f[j]));
        let m0 = choose|m: int| 0 <= m < g[j].len() && #[trigger] g[j][m] == f[j];
        if m0 > 0 {
            // an index of side s[f[j]] below its first appearance
            let k = g[j][0];
            assert(k < f[j]);
            assert(s[k] == s[f[j]]);
            lemma_first_seen_below(s, n, j, k);
        }
    }
    assert forall|i: int| 0 <= i < n implies #[trigger] in_some_group(g, i) by {
        assert(has_group(s, f, s[i]));
        let j = choose|j: int| 0 <= j < f.len() && s[#[trigger] f[j]] == s[i];
        lemma_positions_facts(s, s[f[j]], n);
        assert(g[j].contains(i));
        let m = choose|m: int| 0 <= m < g[j].len() && g[j][m] == i;
        assert(g[j][m] == i);
    }
    assert forall|j1: int, m1: int, j2: int, m2: int|
        0 <= j1 < g.len() && 0 <= m1 < g[j1].len() && 0 <= j2 < g.len() && 0 <= m2 < g[j2].len()
            && #[trigger] g[j1][m1] == #[trigger] g[j2][m2] implies j1 == j2 && m1 == m2 by {
        assert(s[g[j1][m1]] == s[f[j1]]);
        assert(s[g[j2][m2]] == s[f[j2]]);
        if j1 == j2 {
            if m1 < m2 {
                assert(g[j1][m1] < g[j1][m2]);
            } else if m2 < m1 {
                assert(g[j1][m2] < g[j1][m1]);
            }
        }
    }
}

/// No index below the first appearance of a side has that side.
proof fn lemma_first_seen_below(s: Seq<Seq<char>>, n: int, j: int, k: int)
    requires
        0 <= n <= s.len(),
        0 <= j < first_seen(s, n).len(),
        0 <= k < first_seen(s, n)[j],
    ensures
        s[k] != s[first_seen(s, n)[j]],
    decreases n,
{
    lemma_first_seen_facts(s, n);
    let f = first_seen(s, n);
    let p = first_seen(s, n - 1);
    if s.take(n - 1).contains(s[n - 1]) {
        lemma_first_seen_below(s, n - 1, j, k);
    } else if j < p.len() {
        assert(f[j] == p[j]);
        lemma_first_seen_below(s, n - 1, j, k);
    } else {
        assert(f[j] == n - 1);
        if s[k] == s[n - 1] {
            assert(s.take(n - 1)[k] == s[n - 1]);
        }
    }
}

/// Whether index `i` is among the first `m` entries of group `j` or in a group before
/// `j`.
pub open spec fn placed_before(g: Seq<Vec<usize>>, j: int, m: int, i: int) -> bool {
    exists|j2: int, m2: int|
        0 <= j2 <= j && 0 <= m2 < g[j2]@.len() && (j2 < j || m2 < m) && #[trigger] g[j2]@[m2] == i
}

/// Colours for `n` segments: segment `groups[j][m]` gets `colors[j][m]`, a segment in
/// no group stays black.
pub fn place_colors(n: usize, groups: &Vec<Vec<usize>>, colors: &Vec<Vec<[u8; 3]>>) -> (out: Vec<[u8; 3]>)
    requires
        groups@.len() == colors@.len(),
        forall|j: int| 0 <= j < groups@.len() ==> (#[trigger] groups@[j])@.len() == colors@[j]@.len(),
        forall|j: int, m: int| 0 <= j < groups@.len() && 0 <= m < groups@[j]@.len() ==> #[trigger] groups@[j]@[m] < n,
        forall|j1: int, m1: int, j2: int, m2: int|
            0 <= j1 < groups@.len() && 0 <= m1 < groups@[j1]@.len() && 0 <= j2 < groups@.len() && 0
                <= m2 < groups@[j2]@.len() && #[trigger] groups@[j1]@[m1] == #[trigger] groups@[j2]@[m2]
                ==> j1 == j2 && m1 == m2,
    ensures
        out@.len() == n,
        forall|j: int, m: int| 0 <= j < groups@.len() && 0 <= m < groups@[j]@.len() ==> out@[#[trigger] groups@[j]@[m] as int] == colors@[j]@[m],
        forall|i: int| 0 <= i < n && !placed_before(groups@, groups@.len() as int, 0, i) ==> #[trigger] out@[i] == [0u8, 0u8, 0u8],
{
    let mut out: Vec<[u8; 3]> = Vec::new();
    let mut i: usize = 0;
    while i < n
        invariant
            i <= n,
            out@.len() == i,
            forall|k: int| 0 <= k < i ==> #[trigger] out@[k] == [0u8, 0u8, 0u8],
        decreases n - i,
    {
        out.push([0, 0, 0]);
        i = i + 1;
    }
    let g = groups;
    let mut j: usize = 0;
    while j < g.len()
        invariant
            j <= g@.len(),
            out@.len() == n,
            g@.len() == colors@.len(),
            forall|jj: int| 0 <= jj < g@.len() ==> (#[trigger] g@[jj])@.len() == colors@[jj]@.len(),
            forall|jj: int, m: int| 0 <= jj < g@.len() && 0 <= m < g@[jj]@.len() ==> #[trigger] g@[jj]@[m] < n,
            forall|j1: int, m1: int, j2: int, m2: int|
                0 <= j1 < g@.len() && 0 <= m1 < g@[j1]@.len() && 0 <= j2 < g@.len() && 0 <= m2
                    < g@[j2]@.len() && #[trigger] g@[j1]@[m1] == #[trigger] g@[j2]@[m2] ==> j1 == j2
                    && m1 == m2,
            forall|jj: int, m: int| 0 <= jj < j && 0 <= m < g@[jj]@.len() ==> out@[#[trigger] g@[jj]@[m] as int] == colors@[jj]@[m],
            forall|k: int| 0 <= k < n && !placed_before(g@, j as int, 0, k) ==> #[trigger] out@[k] == [0u8, 0u8, 0u8],
        decreases g@.len() - j,
    {
        let mut m: usize = 0;
        while m < g[j].len()
            invariant
                j < g@.len(),
                m <= g@[j as int]@.len(),
                out@.len() == n,
                g@.len() == colors@.len(),
                forall|jj: int| 0 <= jj < g@.len() ==> (#[trigger] g@[jj])@.len() == colors@[jj]@.len(),
                forall|jj: int, mm: int| 0 <= jj < g@.len() && 0 <= mm < g@[jj]@.len() ==> #[trigger] g@[jj]@[mm] < n,
                forall|j1: int, m1: int, j2: int, m2: int|
                    0 <= j1 < g@.len() && 0 <= m1 < g@[j1]@.len() && 0 <= j2 < g@.len() && 0 <= m2
                        < g@[j2]@.len() && #[trigger] g@[j1]@[m1] == #[trigger] g@[j2]@[m2] ==> j1
                        == j2 && m1 == m2,
                forall|jj: int, mm: int| 0 <= jj <= j && 0 <= mm < g@[jj]@.len() && (jj < j || mm < m) ==> out@[#[trigger] g@[jj]@[mm] as int] == colors@[jj]@[mm],
                forall|k: int| 0 <= k < n && !placed_before(g@, j as int, m as int, k) ==> #[trigger] out@[k] == [0u8, 0u8, 0u8],
            decreases g@[j as int]@.len() - m,
        {
            let t = g[j][m];
            let c = colors[j][m];
            let ghost before = out@;
            out.set(t, c);
            proof {
                assert forall|k: int| 0 <= k < n && !placed_before(g@, j as int, m + 1, k) implies #[trigger] out@[k] == [0u8, 0u8, 0u8] by {
                    if k == t {
                        assert(g@[j as int]@[m as int] == k);
                    } else {
                        if placed_before(g@, j as int, m as int, k) {
                            let (j2, m2) = choose|j2: int, m2: int|
                                0 <= j2 <= j && 0 <= m2 < g@[j2]@.len() && (j2 < j || m2 < m) && #[trigger] g@[j2]@[m2] == k;
                            assert(placed_before(g@, j as int, m + 1, k));
                        }
                    }
                }
                assert forall|jj: int, mm: int| 0 <= jj <= j && 0 <= mm < g@[jj]@.len() && (jj < j || mm < m + 1) implies out@[#[trigger] g@[jj]@[mm] as int] == colors@[jj]@[mm] by {
                    if jj == j && mm == m {
                    } else {
                        assert(g@[jj]@[mm] != t);
                    }
                }
            }
            m = m + 1;
        }
        proof {
            assert forall|k: int| 0 <= k < n && !placed_before(g@, j + 1, 0, k) implies #[trigger] out@[k] == [0u8, 0u8, 0u8] by {
                if placed_before(g@, j as int, g@[j as int]@.len() as int, k) {
                    let (j2, m2) = choose|j2: int, m2: int|
                        0 <= j2 <= j && 0 <= m2 < g@[j2]@.len() && (j2 < j || m2 < g@[j as int]@.len()) && #[trigger] g@[j2]@[m2] == k;
                    assert(placed_before(g@, j + 1, 0, k));
                }
            }
        }
        j = j + 1;
    }
    out
}

/// The group of [`spec_side_groups`] that holds side `x`.
pub open spec fn group_of(s: Seq<Seq<char>>, x: Seq<char>) -> int {
    choose|j: int|
        0 <= j < first_seen(s, s.len() as int).len() && s[first_seen(s, s.len() as int)[j]] == x
}

/// How many segments before segment `i` name the same side: its place among that side's
/// segments.
pub open spec fn side_rank(s: Seq<Seq<char>>, i: int) -> int {
    positions(s, s[i], i).len() as int
}

proof fn lemma_positions_prefix(s: Seq<Seq<char>>, x: Seq<char>, k: int, n: int)
    requires
        0 <= k <= n <= s.len(),
    ensures
        positions(s, x, k).len() <= positions(s, x, n).len(),
        positions(s, x, n).take(positions(s, x, k).len() as int) == positions(s, x, k),
    decreases n - k,
{
    if k < n {
        lemma_positions_prefix(s, x, k, n - 1);
        let a = positions(s, x, k);
        let b = positions(s, x, n - 1);
        if s[n - 1] == x {
            assert(b.push(n - 1).take(a.len() as int) =~= b.take(a.len() as int));
        }
    } else {
        assert(positions(s, x, n).take(positions(s, x, n).len() as int) =~= positions(s, x, n));
    }
}

/// How segments map to sides: segment `i` lies in the group of its side, that group
/// is every segment naming the side in ascending order, and `i` stands in it at its
/// rank among them. So the colour list of a side, one colour per segment of it, is
/// spread over those segments in order.
pub proof fn lemma_side_mapping(s: Seq<Seq<char>>)
    ensures
        forall|i: int| 0 <= i < s.len() ==> {
            let g = spec_side_groups(s);
            let j = group_of(s, #[trigger] s[i]);
            &&& 0 <= j < g.len()
            &&& g[j] == positions(s, s[i], s.len() as int)
            &&& 0 <= side_rank(s, i) < g[j].len()
            &&& g[j][side_rank(s, i)] == i
        },
{
    let n = s.len() as int;
    lemma_first_seen_facts(s, n);
    assert forall|i: int| 0 <= i < n implies {
        let g = spec_side_groups(s);
        let j = group_of(s, #[trigger] s[i]);
        &&& 0 <= j < g.len()
        &&& g[j] == positions(s, s[i], n)
        &&& 0 <= side_rank(s, i) < g[j].len()
        &&& g[j][side_rank(s, i)] == i
    } by {
        assert(has_group(s, first_seen(s, n), s[i]));
        let j = group_of(s, s[i]);
        lemma_positions_prefix(s, s[i], i + 1, n);
        let a = positions(s, s[i], i);
        assert(positions(s, s[i], i + 1) == a.push(i));
        assert(positions(s, s[i], n)[a.len() as int] == positions(s, s[i], n).take(a.len() + 1int)[a.len() as int]);
    }
}

/// The colours of `sides.len()` segments from one colour list per group of
/// [`side_groups`] (`colors[j]` holding one colour per segment of group `j`): segment
/// `i` gets colour number `side_rank(i)` of its side's list.
pub fn place_side_colors(sides: &[String], groups: &Vec<Vec<usize>>, colors: &Vec<Vec<[u8; 3]>>) -> (out: Vec<[u8; 3]>)
    requires
        groups_view(groups@) == spec_side_groups(sides@.map_values(|t: String| t@)),
        colors@.len() == groups@.len(),
        forall|j: int| 0 <= j < groups@.len() ==> (#[trigger] groups@[j])@.len() == colors@[j]@.len(),
    ensures
        ({
            let s = sides@.map_values(|t: String| t@);
            &&& out@.len() == s.len()
            &&& forall|i: int| 0 <= i < s.len() ==> #[trigger] out@[i] == colors@[group_of(s, s[i])]@[side_rank(s, i)]
        }),
{
    let ghost s = sides@.map_values(|t: String| t@);
    let ghost g = spec_side_groups(s);
    proof {
        lemma_side_groups_partition(s);
        lemma_side_mapping(s);
        assert forall|j: int| 0 <= j < groups@.len() implies (#[trigger] groups@[j])@.len() == g[j].len()
            && forall|m: int| 0 <= m < groups@[j]@.len() ==> groups@[j]@[m] as int == #[trigger] g[j][m] by {
            assert(groups_view(groups@)[j] == idx_view(groups@[j]@));
        }
        assert forall|j: int, m: int| 0 <= j < groups@.len() && 0 <= m < groups@[j]@.len() implies #[trigger] groups@[j]@[m] < sides@.len() by {
            assert(groups@[j]@[m] as int == g[j][m]);
        }
        assert forall|j1: int, m1: int, j2: int, m2: int|
            0 <= j1 < groups@.len() && 0 <= m1 < groups@[j1]@.len() && 0 <= j2 < groups@.len() && 0
                <= m2 < groups@[j2]@.len() && #[trigger] groups@[j1]@[m1] == #[trigger] groups@[j2]@[m2]
                implies j1 == j2 && m1 == m2 by {
            assert(groups@[j1]@[m1] as int == g[j1][m1]);
            assert(groups@[j2]@[m2] as int == g[j2][m2]);
        }
    }
    let out = place_colors(sides.len(), groups, colors);
    proof {
        assert forall|i: int| 0 <= i < s.len() implies #[trigger] out@[i] == colors@[group_of(s, s[i])]@[side_rank(s, i)] by {
            let j = group_of(s, s[i]);
            let m = side_rank(s, i);
            assert(g[j][m] == i);
            assert(groups@[j]@[m] as int == g[j][m]);
        }
    }
    out
}

} // verus!
