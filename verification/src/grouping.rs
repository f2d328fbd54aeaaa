//! Grouping photos by visual similarity: perceptual hashes compared by Hamming
//! distance, gathered by complete linkage in the photos' order.
use vstd::prelude::*;

verus! {

/// The number of one bits among the lowest `n` bits of `x`.
pub open spec fn ones(x: nat, n: nat) -> nat
    decreases n,
{
    if n == 0 {
        0
    } else {
        x % 2 + ones(x / 2, (n - 1) as nat)
    }
}

/// The Hamming distance of two 64-bit hashes: the number of bits in which they differ.
pub open spec fn hamming_distance(a: u64, b: u64) -> nat {
    ones((a ^ b) as nat, 64)
}

proof fn lemma_ones_bound(x: nat, n: nat)
    ensures
        ones(x, n) <= n,
    decreases n,
{
    if n > 0 {
        lemma_ones_bound(x / 2, (n - 1) as nat);
    }
}

/// Hamming distance between two 64-bit hashes.
pub fn hamming(a: u64, b: u64) -> (r: u32)
    ensures
        r == hamming_distance(a, b),
        r <= 64,
{
    let mut v: u64 = a ^ b;
    let mut count: u32 = 0;
    let mut i: u32 = 0;
    while i < 64
        invariant
            0 <= i <= 64,
            count <= i,
            count + ones(v as nat, (64 - i) as nat) == ones((a ^ b) as nat, 64),
        decreases 64 - i,
    {
        count += (v % 2) as u32;
        v = v / 2;
        i += 1;
    }
    proof {
        lemma_ones_bound((a ^ b) as nat, 64);
    }
    count
}

/// Whether a photo with hash `h` may join the group `members`: the group has a
/// member and `h` is within `threshold` of every member.
pub open spec fn can_join(members: Seq<u64>, h: u64, threshold: u32) -> bool {
    members.len() > 0 && forall|j: int|
        0 <= j < members.len() ==> hamming_distance(h, #[trigger] members[j]) <= threshold
}

/// The first of the first `k` groups that a photo with hash `h` may join.
pub open spec fn first_fit(groups: Seq<Seq<u64>>, h: u64, threshold: u32, k: int) -> Option<int>
    decreases k,
{
    if k <= 0 {
        None
    } else {
        match first_fit(groups, h, threshold, k - 1) {
            Some(g) => Some(g),
            None => if can_join(groups[k - 1], h, threshold) {
                Some(k - 1)
            } else {
                None
            },
        }
    }
}

/// Where the next photo goes and the groups after it: a photo without a hash
/// gets a group of its own that no photo joins; a photo with a hash joins the
/// first group it may join, else starts a new group.
pub open spec fn place(groups: Seq<Seq<u64>>, hash: Option<u64>, threshold: u32) -> (
    Seq<Seq<u64>>,
    int,
) {
    match hash {
        None => (groups.push(seq![]), groups.len() as int),
        Some(h) => match first_fit(groups, h, threshold, groups.len() as int) {
            Some(g) => (groups.update(g, groups[g].push(h)), g),
            None => (groups.push(seq![h]), groups.len() as int),
        },
    }
}

/// Whether every member of every group is within `threshold` of every other
/// member of its group.
pub open spec fn groups_tight(groups: Seq<Seq<u64>>, threshold: u32) -> bool {
    forall|g: int, i: int, j: int|
        0 <= g < groups.len() && 0 <= i < j < groups[g].len() ==> hamming_distance(
            #[trigger] groups[g][j],
            #[trigger] groups[g][i],
        ) <= threshold
}

proof fn lemma_first_fit(groups: Seq<Seq<u64>>, h: u64, threshold: u32, k: int)
    ensures
        first_fit(groups, h, threshold, k) matches Some(g) ==> 0 <= g < k && can_join(
            groups[g],
            h,
            threshold,
        ),
        first_fit(groups, h, threshold, k) is None ==> forall|g: int|
            0 <= g < k ==> !can_join(#[trigger] groups[g], h, threshold),
    decreases k,
{
    if k > 0 {
        lemma_first_fit(groups, h, threshold, k - 1);
    }
}

proof fn lemma_first_fit_stable(groups: Seq<Seq<u64>>, h: u64, threshold: u32, k: int, k2: int)
    requires
        k <= k2,
        first_fit(groups, h, threshold, k) is Some,
    ensures
        first_fit(groups, h, threshold, k2) == first_fit(groups, h, threshold, k),
    decreases k2 - k,
{
    if k < k2 {
        lemma_first_fit_stable(groups, h, threshold, k, k2 - 1);
    }
}

/// Complete linkage: placing a photo keeps every group tight, and a group
/// started by a photo without a hash stays empty.
pub proof fn lemma_place_keeps_groups_tight(groups: Seq<Seq<u64>>, hash: Option<u64>, threshold: u32)
    requires
        groups_tight(groups, threshold),
    ensures
        groups_tight(place(groups, hash, threshold).0, threshold),
        forall|g: int|
            0 <= g < groups.len() && groups[g].len() == 0 ==> (#[trigger] place(
                groups,
                hash,
                threshold,
            ).0[g]).len() == 0,
{
    let (ng, k) = place(groups, hash, threshold);
    if let Some(h) = hash {
        lemma_first_fit(groups, h, threshold, groups.len() as int);
        assert forall|g: int, i: int, j: int|
            0 <= g < ng.len() && 0 <= i < j < ng[g].len() implies hamming_distance(
            #[trigger] ng[g][j],
            #[trigger] ng[g][i],
        ) <= threshold by {
            if g < groups.len() && g != k {
                assert(ng[g] == groups[g]);
            } else if g == k && k < groups.len() {
                if j < groups[g].len() {
                    assert(ng[g][j] == groups[g][j] && ng[g][i] == groups[g][i]);
                } else {
                    assert(ng[g][j] == h);
                    assert(ng[g][i] == groups[g][i]);
                    assert(hamming_distance(h, groups[g][i]) <= threshold);
                }
            }
        }
    }
}

/// The groups, and the group of each photo, after placing the photos with
/// `hashes` one by one, in order, starting with no groups.
pub open spec fn group_all(hashes: Seq<Option<u64>>, threshold: u32) -> (Seq<Seq<u64>>, Seq<int>)
    decreases hashes.len(),
{
    if hashes.len() == 0 {
        (seq![], seq![])
    } else {
        let (gs, asg) = group_all(hashes.drop_last(), threshold);
        let (gs2, g) = place(gs, hashes.last(), threshold);
        (gs2, asg.push(g))
    }
}

/// Grouping a whole list of photos: every group stays within the threshold,
/// each photo is assigned an existing group that holds its hash, and a photo
/// without a hash is alone in a group with no members.
pub proof fn lemma_group_all_complete_linkage(hashes: Seq<Option<u64>>, threshold: u32)
    ensures
        ({
            let (gs, asg) = group_all(hashes, threshold);
            &&& asg.len() == hashes.len()
            &&& groups_tight(gs, threshold)
            &&& forall|i: int| 0 <= i < hashes.len() ==> 0 <= #[trigger] asg[i] < gs.len()
            &&& forall|i: int|
                0 <= i < hashes.len() && (#[trigger] hashes[i]) is Some ==> gs[asg[i]].contains(
                    hashes[i].unwrap(),
                )
            &&& forall|i: int|
                0 <= i < hashes.len() && (#[trigger] hashes[i]) is None ==> gs[asg[i]].len() == 0
            &&& forall|i: int, j: int|
                0 <= i < hashes.len() && 0 <= j < hashes.len() && i != j && (#[trigger] hashes[i]) is None
                    ==> asg[i] != #[trigger] asg[j]
        }),
    decreases hashes.len(),
{
    if hashes.len() > 0 {
        let prefix = hashes.drop_last();
        lemma_group_all_complete_linkage(prefix, threshold);
        let (gs, asg) = group_all(prefix, threshold);
        let hash = hashes.last();
        let n = prefix.len() as int;
        let (gs2, g) = place(gs, hash, threshold);
        let asg2 = asg.push(g);
        lemma_place_keeps_groups_tight(gs, hash, threshold);
        assert forall|i: int| 0 <= i < n implies #[trigger] hashes[i] == prefix[i] by {}
        // What placing does to the groups already there.
        let grown: Option<int> = match hash {
            Some(h) => first_fit(gs, h, threshold, gs.len() as int),
            None => None,
        };
        match hash {
            Some(h) => {
                lemma_first_fit(gs, h, threshold, gs.len() as int);
            },
            None => {},
        }
        assert(gs2.len() >= gs.len());
        assert forall|k: int| 0 <= k < gs.len() && grown != Some(k) implies #[trigger] gs2[k]
            == gs[k] by {}
        assert forall|i: int| 0 <= i < hashes.len() implies 0 <= #[trigger] asg2[i] < gs2.len() by {
            if i < n {
                assert(asg2[i] == asg[i]);
            }
        }
        assert forall|i: int|
            0 <= i < hashes.len() && (#[trigger] hashes[i]) is Some implies gs2[asg2[i]].contains(
                hashes[i].unwrap(),
            ) by {
            let h = hashes[i].unwrap();
            if i < n {
                assert(prefix[i] == hashes[i]);
                assert(asg2[i] == asg[i]);
                let k = asg[i];
                assert(gs[k].contains(h));
                if grown == Some(k) {
                    let x = choose|x: int| 0 <= x < gs[k].len() && gs[k][x] == h;
                    assert(gs2[k][x] == h);
                }
            } else {
                let hh = hash.unwrap();
                if grown is Some {
                    assert(gs2[g][gs[g].len() as int] == hh);
                } else {
                    assert(gs2[g][0] == hh);
                }
            }
        }
        assert forall|i: int| 0 <= i < hashes.len() && (#[trigger] hashes[i]) is None implies gs2[asg2[i]].len()
            == 0 by {
            if i < n {
                assert(prefix[i] == hashes[i]);
                assert(asg2[i] == asg[i]);
                assert(gs[asg[i]].len() == 0);
                assert(gs2[asg[i]].len() == 0);
            }
        }
        assert forall|i: int, j: int|
            0 <= i < hashes.len() && 0 <= j < hashes.len() && i != j && (#[trigger] hashes[i]) is None
                implies asg2[i] != #[trigger] asg2[j] by {
            if i < n && j < n {
                assert(prefix[i] == hashes[i]);
                assert(asg2[i] == asg[i] && asg2[j] == asg[j]);
            } else if i < n {
                assert(prefix[i] == hashes[i]);
                assert(asg2[i] == asg[i]);
                assert(gs[asg[i]].len() == 0);
                if let Some(k) = grown {
                    assert(can_join(gs[k], hash.unwrap(), threshold));
                }
            } else {
                assert(asg2[j] == asg[j]);
                assert(asg[j] < gs.len());
            }
        }
    }
}

proof fn lemma_can_join_wide(members: Seq<u64>, h: u64, threshold: u32)
    requires
        threshold >= 64,
    ensures
        can_join(members, h, threshold) == (members.len() > 0),
{
    assert forall|j: int| 0 <= j < members.len() implies hamming_distance(
        h,
        #[trigger] members[j],
    ) <= threshold by {
        lemma_ones_bound((h ^ members[j]) as nat, 64);
    }
}

proof fn lemma_first_fit_wide(groups: Seq<Seq<u64>>, h: u64, threshold: u32, k: int)
    requires
        threshold >= 64,
    ensures
        first_fit(groups, h, threshold, k) == first_fit(groups, h, 64, k),
    decreases k,
{
    if k > 0 {
        lemma_first_fit_wide(groups, h, threshold, k - 1);
        lemma_can_join_wide(groups[k - 1], h, threshold);
        lemma_can_join_wide(groups[k - 1], h, 64);
    }
}

/// Whether at most one of the groups has a member.
pub open spec fn at_most_one_filled(gs: Seq<Seq<u64>>) -> bool {
    forall|g1: int, g2: int|
        0 <= g1 < gs.len() && 0 <= g2 < gs.len() && (#[trigger] gs[g1]).len() > 0 && (
        #[trigger] gs[g2]).len() > 0 ==> g1 == g2
}

proof fn lemma_group_all_wide(hashes: Seq<Option<u64>>, threshold: u32)
    requires
        threshold >= 64,
    ensures
        group_all(hashes, threshold) == group_all(hashes, 64),
        ({
            let (gs, asg) = group_all(hashes, threshold);
            &&& asg.len() == hashes.len()
            &&& at_most_one_filled(gs)
            &&& forall|i: int|
                0 <= i < hashes.len() && (#[trigger] hashes[i]) is Some ==> 0 <= asg[i] < gs.len()
                    && gs[asg[i]].len() > 0
        }),
    decreases hashes.len(),
{
    if hashes.len() > 0 {
        let prefix = hashes.drop_last();
        lemma_group_all_wide(prefix, threshold);
        let (gs, asg) = group_all(prefix, threshold);
        let hash = hashes.last();
        let (gs2, g) = place(gs, hash, threshold);
        let asg2 = asg.push(g);
        if let Some(h) = hash {
            lemma_first_fit_wide(gs, h, threshold, gs.len() as int);
            lemma_first_fit(gs, h, threshold, gs.len() as int);
            match first_fit(gs, h, threshold, gs.len() as int) {
                Some(g0) => {
                    assert(gs2 == gs.update(g0, gs[g0].push(h)));
                    assert forall|g1: int, g2: int|
                        0 <= g1 < gs2.len() && 0 <= g2 < gs2.len() && (#[trigger] gs2[g1]).len()
                            > 0 && (#[trigger] gs2[g2]).len() > 0 implies g1 == g2 by {
                        assert(gs[g1].len() > 0 || g1 == g0);
                        assert(gs[g2].len() > 0 || g2 == g0);
                        assert(gs[g0].len() > 0);
                    }
                    assert forall|i: int|
                        0 <= i < hashes.len() && (#[trigger] hashes[i]) is Some implies 0 <= asg2[i]
                            < gs2.len() && gs2[asg2[i]].len() > 0 by {
                        if i < prefix.len() {
                            assert(prefix[i] == hashes[i]);
                            assert(gs2[asg[i]].len() >= gs[asg[i]].len());
                        }
                    }
                },
                None => {
                    assert forall|k: int| 0 <= k < gs.len() implies (#[trigger] gs[k]).len() == 0 by {
                        lemma_can_join_wide(gs[k], h, threshold);
                    }
                    assert forall|g1: int, g2: int|
                        0 <= g1 < gs2.len() && 0 <= g2 < gs2.len() && (#[trigger] gs2[g1]).len()
                            > 0 && (#[trigger] gs2[g2]).len() > 0 implies g1 == g2 by {
                        if g1 < gs.len() {
                            assert(gs2[g1] == gs[g1]);
                        }
                        if g2 < gs.len() {
                            assert(gs2[g2] == gs[g2]);
                        }
                    }
                    assert forall|i: int|
                        0 <= i < hashes.len() && (#[trigger] hashes[i]) is Some implies 0 <= asg2[i]
                            < gs2.len() && gs2[asg2[i]].len() > 0 by {
                        if i < prefix.len() {
                            assert(prefix[i] == hashes[i]);
                            assert(gs[asg[i]].len() == 0);
                        }
                    }
                },
            }
        } else {
            assert forall|g1: int, g2: int|
                0 <= g1 < gs2.len() && 0 <= g2 < gs2.len() && (#[trigger] gs2[g1]).len() > 0 && (
                #[trigger] gs2[g2]).len() > 0 implies g1 == g2 by {
                if g1 < gs.len() {
                    assert(gs2[g1] == gs[g1]);
                }
                if g2 < gs.len() {
                    assert(gs2[g2] == gs[g2]);
                }
            }
            assert forall|i: int|
                0 <= i < hashes.len() && (#[trigger] hashes[i]) is Some implies 0 <= asg2[i]
                    < gs2.len() && gs2[asg2[i]].len() > 0 by {
                assert(i < prefix.len());
                assert(prefix[i] == hashes[i]);
                assert(gs2[asg[i]] == gs[asg[i]]);
            }
        }
    }
}

/// A threshold of 64 or more lets every hashed photo join any group that has
/// a member: it gives the same groups as 64, and puts every photo with a hash
/// in one group.
pub proof fn lemma_wide_threshold_one_group(hashes: Seq<Option<u64>>, threshold: u32)
    requires
        threshold >= 64,
    ensures
        group_all(hashes, threshold) == group_all(hashes, 64),
        forall|i: int, j: int|
            0 <= i < hashes.len() && 0 <= j < hashes.len() && (#[trigger] hashes[i]) is Some && (
            #[trigger] hashes[j]) is Some ==> group_all(hashes, threshold).1[i] == group_all(
                hashes,
                threshold,
            ).1[j],
{
    lemma_group_all_wide(hashes, threshold);
}

/// The member hashes of each group.
pub open spec fn members_of(groups: Seq<Vec<u64>>) -> Seq<Seq<u64>> {
    Seq::new(groups.len(), |i: int| groups[i]@)
}

/// The largest Hamming distance allowed within a group: the threshold asked
/// for, at most 64.
pub fn clamp_threshold(threshold: u32) -> (r: u32)
    ensures
        r == (if threshold < 64 {
            threshold
        } else {
            64
        }),
{
    if threshold < 64 {
        threshold
    } else {
        64
    }
}

/// Places the next photo, with its hash if one could be computed, among the
/// groups formed so far (complete linkage), and returns the index of its group.
pub fn assign_group(groups: &mut Vec<Vec<u64>>, hash: Option<u64>, threshold: u32) -> (gid: usize)
    requires
        old(groups)@.len() < usize::MAX,
    ensures
        (members_of(final(groups)@), gid as int) == place(members_of(old(groups)@), hash, threshold),
{
    let ghost gs = members_of(groups@);
    let n = groups.len();
    match hash {
        None => {
            let empty: Vec<u64> = Vec::new();
            groups.push(empty);
            assert(members_of(groups@) =~= gs.push(seq![]));
            n
        },
        Some(h) => {
            let mut g: usize = 0;
            while g < n
                invariant
                    n == groups@.len(),
                    hash == Some(h),
                    gs == members_of(groups@),
                    gs == members_of(old(groups)@),
                    0 <= g <= n,
                    first_fit(gs, h, threshold, g as int) is None,
                decreases n - g,
            {
                let members = &groups[g];
                assert(members@ == gs[g as int]);
                let mut fits = members.len() > 0;
                let mut j: usize = 0;
                while fits && j < members.len()
                    invariant
                        members@ == gs[g as int],
                        0 <= j <= members.len(),
                        fits == (members.len() > 0 && forall|k: int|
                            0 <= k < j ==> hamming_distance(h, #[trigger] members@[k])
                                <= threshold),
                    decreases members.len() - j,
                {
                    if hamming(h, members[j]) > threshold {
                        fits = false;
                    }
                    j += 1;
                }
                if fits {
                    proof {
                        assert(can_join(gs[g as int], h, threshold));
                        assert(first_fit(gs, h, threshold, g + 1) == Some(g as int));
                        lemma_first_fit_stable(gs, h, threshold, g + 1, n as int);
                    }
                    let mut grown = members.clone();
                    assert(grown@ =~= members@);
                    grown.push(h);
                    groups.set(g, grown);
                    assert(members_of(groups@) =~= gs.update(g as int, gs[g as int].push(h)));
                    return g;
                }
                g += 1;
            }
            let mut single = Vec::new();
            single.push(h);
            groups.push(single);
            assert(members_of(groups@) =~= gs.push(seq![h]));
            n
        },
    }
}

/// How many photos make one progress step: a twentieth of them, at least 5.
pub fn progress_step(total: usize) -> (step: usize)
    ensures
        step == (if total / 20 > 5 {
            total / 20
        } else {
            5
        }),
        step > 0,
{
    let s = total / 20;
    if s > 5 {
        s
    } else {
        5
    }
}

/// Whether progress is reported after `processed` of `total` photos: at each
/// full step and at the end.
pub fn should_report_progress(processed: usize, total: usize, step: usize) -> (r: bool)
    requires
        step > 0,
    ensures
        r == (processed % step == 0 || processed == total),
{
    processed % step == 0 || processed == total
}

} // verus!
