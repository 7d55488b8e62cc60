//! Sorted sets: a dual index of member scores.
//!
//! A sorted set keeps (a) a score map from member to score and (b) an ordered
//! index ranked by (score, member), member order breaking score ties. Scores
//! are IEEE-754 doubles handled here purely through their bit patterns; the
//! order used is the standard total order on doubles, which compares bit
//! patterns as sign-adjusted integers.

use vstd::prelude::*;

use crate::util::lex_lt;

verus! {

/// An entry of the score map: member, score bits, and the score's text form.
pub struct ScoreEntry {
    pub member: Vec<u8>,
    pub bits: u64,
    pub text: Vec<u8>,
}

/// An item of the ordered index.
pub struct RankedItem {
    pub bits: u64,
    pub member: Vec<u8>,
}

/// Sorted set storage: score map and ordered index.
pub struct SortedSet {
    pub scores: Vec<ScoreEntry>,
    pub ranked: Vec<RankedItem>,
}

/// The total order key of a double given by its bit pattern: the key of a
/// non-negative double is its bit pattern, the key of a negative double is
/// its pattern with the low 63 bits flipped, offset below zero.
pub open spec fn score_key(bits: u64) -> int {
    if bits < 0x8000000000000000 {
        bits as int
    } else {
        (bits ^ 0x7FFFFFFFFFFFFFFF) - 0x10000000000000000
    }
}

/// Strict order of the ordered index: by score, then member.
pub open spec fn rank_lt(ab: u64, am: Seq<u8>, bb: u64, bm: Seq<u8>) -> bool {
    score_key(ab) < score_key(bb) || (score_key(ab) == score_key(bb) && lex_lt(am, bm))
}

/// The score keys are injective in the bit patterns.
pub proof fn lemma_score_key_injective(a: u64, b: u64)
    requires
        score_key(a) == score_key(b),
    ensures
        a == b,
{
    if a >= 0x8000000000000000 && b >= 0x8000000000000000 {
        assert((a ^ 0x7FFFFFFFFFFFFFFF) == (b ^ 0x7FFFFFFFFFFFFFFF) ==> a == b) by (bit_vector);
    } else if a < 0x8000000000000000 && b >= 0x8000000000000000 {
        assert((b ^ 0x7FFFFFFFFFFFFFFF) >= 0x8000000000000000) by (bit_vector)
            requires
                b >= 0x8000000000000000,
        ;
    } else if a >= 0x8000000000000000 && b < 0x8000000000000000 {
        assert((a ^ 0x7FFFFFFFFFFFFFFF) >= 0x8000000000000000) by (bit_vector)
            requires
                a >= 0x8000000000000000,
        ;
    }
}

/// Compare two scores by the total order on doubles.
pub fn score_lt(a: u64, b: u64) -> (r: bool)
    ensures
        r == (score_key(a) < score_key(b)),
{
    let sign: u64 = 0x8000000000000000;
    let mask: u64 = 0x7FFFFFFFFFFFFFFF;
    if a < sign && b < sign {
        a < b
    } else if a >= sign && b >= sign {
        (a ^ mask) < (b ^ mask)
    } else if a >= sign {
        true
    } else {
        false
    }
}

impl SortedSet {
    /// The score map as `(member, bits, text)` triples.
    pub open spec fn scores_model(self) -> Seq<(Seq<u8>, u64, Seq<u8>)> {
        Seq::new(
            self.scores@.len(),
            |i: int|
                if 0 <= i < self.scores@.len() {
                    (self.scores@[i].member@, self.scores@[i].bits, self.scores@[i].text@)
                } else {
                    (Seq::empty(), 0u64, Seq::empty())
                },
        )
    }

    /// The ordered index as `(bits, member)` pairs.
    pub open spec fn ranked_model(self) -> Seq<(u64, Seq<u8>)> {
        Seq::new(
            self.ranked@.len(),
            |i: int|
                if 0 <= i < self.ranked@.len() {
                    (self.ranked@[i].bits, self.ranked@[i].member@)
                } else {
                    (0u64, Seq::empty())
                },
        )
    }

    pub open spec fn len(self) -> int {
        self.scores@.len() as int
    }

    /// The dual-index invariant: both sides have the same cardinality and the
    /// same membership, members are unique on both sides, and the index is
    /// strictly sorted by (score, member).
    pub open spec fn wf(self) -> bool {
        let sm = self.scores_model();
        let rm = self.ranked_model();
        &&& sm.len() == rm.len()
        &&& (forall|i: int, j: int|
            0 <= i < j < sm.len() ==> (#[trigger] sm[i]).0 != (#[trigger] sm[j]).0)
        &&& (forall|i: int, j: int|
            0 <= i < j < rm.len() ==> (#[trigger] rm[i]).1 != (#[trigger] rm[j]).1)
        &&& (forall|i: int, j: int|
            0 <= i < j < rm.len() ==> rank_lt(
                (#[trigger] rm[i]).0,
                rm[i].1,
                (#[trigger] rm[j]).0,
                rm[j].1,
            ))
        &&& (forall|i: int|
            0 <= i < sm.len() ==> ranked_has(rm, (#[trigger] sm[i]).1, sm[i].0))
        &&& (forall|j: int|
            0 <= j < rm.len() ==> scores_has(sm, (#[trigger] rm[j]).0, rm[j].1))
    }
}

/// Whether the ordered index holds the pair `(bits, member)`.
pub open spec fn ranked_has(rm: Seq<(u64, Seq<u8>)>, bits: u64, m: Seq<u8>) -> bool {
    exists|j: int| 0 <= j < rm.len() && #[trigger] rm[j] == (bits, m)
}

/// Whether the score map binds `member` to `bits`.
pub open spec fn scores_has(sm: Seq<(Seq<u8>, u64, Seq<u8>)>, bits: u64, m: Seq<u8>) -> bool {
    exists|i: int| 0 <= i < sm.len() && (#[trigger] sm[i]).0 == m && sm[i].1 == bits
}


/// Order or equality of two index items, decided.
pub proof fn lemma_rank_trichotomy(ab: u64, am: Seq<u8>, bb: u64, bm: Seq<u8>)
    ensures
        rank_lt(ab, am, bb, bm) || rank_lt(bb, bm, ab, am) || (ab == bb && am == bm),
        rank_lt(ab, am, bb, bm) ==> !rank_lt(bb, bm, ab, am) && !(ab == bb && am == bm),
{
    if score_key(ab) == score_key(bb) {
        lemma_score_key_injective(ab, bb);
        crate::util::lemma_lex_lt_connex(am, bm);
    }
}

/// Transitivity of the index order.
pub proof fn lemma_rank_trans(ab: u64, am: Seq<u8>, bb: u64, bm: Seq<u8>, cb: u64, cm: Seq<u8>)
    requires
        rank_lt(ab, am, bb, bm),
        rank_lt(bb, bm, cb, cm),
    ensures
        rank_lt(ab, am, cb, cm),
{
    if score_key(ab) == score_key(bb) && score_key(bb) == score_key(cb) {
        crate::util::lemma_lex_lt_trans(am, bm, cm);
    }
}

/// First index bound to `m` in a score-map model, or -1.
pub open spec fn z_find(sm: Seq<(Seq<u8>, u64, Seq<u8>)>, m: Seq<u8>) -> int
    decreases sm.len(),
{
    if sm.len() == 0 {
        -1
    } else if sm[0].0 == m {
        0
    } else {
        let r = z_find(sm.drop_first(), m);
        if r == -1 {
            -1
        } else {
            r + 1
        }
    }
}

pub proof fn lemma_z_find(sm: Seq<(Seq<u8>, u64, Seq<u8>)>, m: Seq<u8>)
    ensures
        z_find(sm, m) == -1 ==> (forall|i: int| 0 <= i < sm.len() ==> (#[trigger] sm[i]).0 != m),
        z_find(sm, m) != -1 ==> 0 <= z_find(sm, m) < sm.len() && sm[z_find(sm, m)].0 == m,
    decreases sm.len(),
{
    if sm.len() > 0 {
        lemma_z_find(sm.drop_first(), m);
        assert(forall|i: int| 0 <= i < sm.len() - 1 ==> #[trigger] sm.drop_first()[i] == sm[i + 1]);
        if z_find(sm, m) == -1 {
            assert forall|i: int| 0 <= i < sm.len() implies (#[trigger] sm[i]).0 != m by {
                if i > 0 {
                    assert(sm.drop_first()[i - 1] == sm[i]);
                    assert(sm.drop_first()[i - 1].0 != m);
                }
            }
        }
    }
}

/// The score map after binding the members in order, and how many were new.
pub open spec fn spec_zadd_scores(
    sm: Seq<(Seq<u8>, u64, Seq<u8>)>,
    args: Seq<(u64, Seq<u8>, Seq<u8>)>,
) -> (Seq<(Seq<u8>, u64, Seq<u8>)>, int)
    decreases args.len(),
{
    if args.len() == 0 {
        (sm, 0)
    } else {
        let r = spec_zadd_scores(sm, args.drop_last());
        let a = args.last();
        let i = z_find(r.0, a.2);
        if i == -1 {
            (r.0.push((a.2, a.0, a.1)), r.1 + 1)
        } else {
            (r.0.update(i, (a.2, a.0, a.1)), r.1)
        }
    }
}

/// The score map after removing the members in order, and how many were
/// present.
pub open spec fn spec_zrem_scores(
    sm: Seq<(Seq<u8>, u64, Seq<u8>)>,
    ms: Seq<Seq<u8>>,
) -> (Seq<(Seq<u8>, u64, Seq<u8>)>, int)
    decreases ms.len(),
{
    if ms.len() == 0 {
        (sm, 0)
    } else {
        let r = spec_zrem_scores(sm, ms.drop_last());
        let i = z_find(r.0, ms.last());
        if i == -1 {
            r
        } else {
            (r.0.remove(i), r.1 + 1)
        }
    }
}

/// The model of ZADD arguments: `(score bits, score text, member)`.
pub open spec fn zargs_model(s: Seq<ZAddEntry>) -> Seq<(u64, Seq<u8>, Seq<u8>)> {
    Seq::new(
        s.len(),
        |i: int|
            if 0 <= i < s.len() {
                (s[i].bits, s[i].text@, s[i].member@)
            } else {
                (0u64, Seq::empty(), Seq::empty())
            },
    )
}

/// One member-score pair offered to ZADD.
pub struct ZAddEntry {
    pub bits: u64,
    pub text: Vec<u8>,
    pub member: Vec<u8>,
}

/// The members of the ordered index, in rank order.
pub open spec fn ranked_members(rm: Seq<(u64, Seq<u8>)>) -> Seq<Seq<u8>> {
    Seq::new(
        rm.len(),
        |i: int|
            if 0 <= i < rm.len() {
                rm[i].1
            } else {
                Seq::empty()
            },
    )
}

impl SortedSet {
    /// An empty sorted set.
    pub fn empty() -> (r: SortedSet)
        ensures
            r.wf(),
            r.scores_model() =~= Seq::<(Seq<u8>, u64, Seq<u8>)>::empty(),
            r.ranked_model() =~= Seq::<(u64, Seq<u8>)>::empty(),
    {
        let r = SortedSet { scores: Vec::new(), ranked: Vec::new() };
        proof {
            assert(r.scores_model() =~= Seq::<(Seq<u8>, u64, Seq<u8>)>::empty());
            assert(r.ranked_model() =~= Seq::<(u64, Seq<u8>)>::empty());
        }
        r
    }

    /// Index of `m` in the score map, if bound.
    #[verifier::loop_isolation(false)]
    fn find_score(&self, m: &Vec<u8>) -> (r: Option<usize>)
        ensures
            match r {
                Some(i) => i < self.scores@.len() && self.scores_model()[i as int].0 == m@ && (
                forall|j: int| 0 <= j < i ==> self.scores_model()[j].0 != m@) && z_find(
                    self.scores_model(),
                    m@,
                ) == i,
                None => z_find(self.scores_model(), m@) == -1,
            },
    {
        let mut i: usize = 0;
        while i < self.scores.len()
            invariant
                0 <= i <= self.scores@.len(),
                forall|j: int| 0 <= j < i ==> self.scores_model()[j].0 != m@,
            decreases self.scores@.len() - i,
        {
            if crate::util::bytes_eq(self.scores[i].member.as_slice(), m.as_slice()) {
                proof {
                    assert(self.scores_model()[i as int].0 == m@);
                    lemma_z_find_at(self.scores_model(), m@, i as int);
                }
                return Some(i);
            }
            i = i + 1;
        }
        proof {
            lemma_z_find(self.scores_model(), m@);
            if z_find(self.scores_model(), m@) != -1 {
                assert(self.scores_model()[z_find(self.scores_model(), m@)].0 == m@);
            }
        }
        None
    }

    /// Index of `m` in the ordered index, if present.
    #[verifier::loop_isolation(false)]
    fn find_ranked(&self, m: &Vec<u8>) -> (r: Option<usize>)
        ensures
            match r {
                Some(i) => i < self.ranked@.len() && self.ranked_model()[i as int].1 == m@,
                None => forall|j: int|
                    0 <= j < self.ranked@.len() ==> (#[trigger] self.ranked_model()[j]).1 != m@,
            },
    {
        let mut i: usize = 0;
        while i < self.ranked.len()
            invariant
                0 <= i <= self.ranked@.len(),
                forall|j: int| 0 <= j < i ==> (#[trigger] self.ranked_model()[j]).1 != m@,
            decreases self.ranked@.len() - i,
        {
            if crate::util::bytes_eq(self.ranked[i].member.as_slice(), m.as_slice()) {
                proof {
                    assert(self.ranked_model()[i as int].1 == m@);
                }
                return Some(i);
            }
            i = i + 1;
        }
        None
    }

    /// Insert an item into the ordered index at its rank.
    #[verifier::loop_isolation(false)]
    fn ranked_insert(&mut self, item: RankedItem)
        requires
            old(self).wf_ranked(),
            forall|j: int|
                0 <= j < old(self).ranked_model().len() ==> (#[trigger] old(
                    self,
                ).ranked_model()[j]).1 != item.member@,
        ensures
            final(self).scores@ == old(self).scores@,
            final(self).wf_ranked(),
            final(self).ranked_model().len() == old(self).ranked_model().len() + 1,
            forall|b2: u64, m2: Seq<u8>|
                #[trigger] ranked_has(final(self).ranked_model(), b2, m2) <==> ((b2 == item.bits
                    && m2 == item.member@) || ranked_has(old(self).ranked_model(), b2, m2)),
    {
        let ghost oldrm = self.ranked_model();
        let mut pos: usize = 0;
        while pos < self.ranked.len() && !score_lt_member(&item, &self.ranked[pos])
            invariant
                0 <= pos <= self.ranked@.len(),
                self == old(self),
                forall|k: int|
                    0 <= k < pos ==> !rank_lt(
                        item.bits,
                        item.member@,
                        (#[trigger] oldrm[k]).0,
                        oldrm[k].1,
                    ),
            decreases self.ranked@.len() - pos,
        {
            pos = pos + 1;
        }
        proof {
            assert forall|k: int| 0 <= k < pos implies rank_lt(
                (#[trigger] oldrm[k]).0,
                oldrm[k].1,
                item.bits,
                item.member@,
            ) by {
                lemma_rank_trichotomy(item.bits, item.member@, oldrm[k].0, oldrm[k].1);
            }
        }
        let ghost prer = self.ranked@;
        self.ranked.insert(pos, item);
        proof {
            let newm = self.ranked_model();
            assert(newm.len() == oldrm.len() + 1);
            assert forall|x: int| 0 <= x < newm.len() implies #[trigger] newm[x] == (if x
                < pos as int {
                oldrm[x]
            } else if x == pos as int {
                (item.bits, item.member@)
            } else {
                oldrm[x - 1]
            }) by {
                if x < pos as int {
                    assert(self.ranked@[x] == prer[x]);
                } else if x > pos as int {
                    assert(self.ranked@[x] == prer[x - 1]);
                }
            }
            assert forall|a: int, b: int| 0 <= a < b < newm.len() implies rank_lt(
                (#[trigger] newm[a]).0,
                newm[a].1,
                (#[trigger] newm[b]).0,
                newm[b].1,
            ) by {
                if a < pos as int && b == pos as int {
                } else if a == pos as int && b > pos as int {
                    if pos as int <= oldrm.len() - 1 {
                        if b - 1 > pos as int {
                            lemma_rank_trans(
                                item.bits,
                                item.member@,
                                oldrm[pos as int].0,
                                oldrm[pos as int].1,
                                oldrm[b - 1].0,
                                oldrm[b - 1].1,
                            );
                        }
                    }
                } else if a < pos as int && b > pos as int {
                }
            }
            assert forall|a: int, b: int| 0 <= a < b < newm.len() implies (#[trigger] newm[a]).1
                != (#[trigger] newm[b]).1 by {}
            assert forall|b2: u64, m2: Seq<u8>| true implies (#[trigger] ranked_has(
                newm,
                b2,
                m2,
            ) <==> ((b2 == item.bits && m2 == item.member@) || ranked_has(oldrm, b2, m2))) by {
                if ranked_has(newm, b2, m2) {
                    let j = choose|j: int| 0 <= j < newm.len() && #[trigger] newm[j] == (b2, m2);
                    if j < pos as int {
                        assert(oldrm[j] == (b2, m2));
                    } else if j > pos as int {
                        assert(oldrm[j - 1] == (b2, m2));
                    }
                }
                if ranked_has(oldrm, b2, m2) {
                    let j = choose|j: int| 0 <= j < oldrm.len() && #[trigger] oldrm[j] == (b2, m2);
                    if j < pos as int {
                        assert(newm[j] == (b2, m2));
                    } else {
                        assert(newm[j + 1] == (b2, m2));
                    }
                }
                if b2 == item.bits && m2 == item.member@ {
                    assert(newm[pos as int] == (b2, m2));
                }
            }
        }
    }

    /// The ordered-index half of the invariant.
    pub open spec fn wf_ranked(self) -> bool {
        let rm = self.ranked_model();
        &&& (forall|i: int, j: int|
            0 <= i < j < rm.len() ==> (#[trigger] rm[i]).1 != (#[trigger] rm[j]).1)
        &&& (forall|i: int, j: int|
            0 <= i < j < rm.len() ==> rank_lt(
                (#[trigger] rm[i]).0,
                rm[i].1,
                (#[trigger] rm[j]).0,
                rm[j].1,
            ))
    }
}

/// Exec comparison of an item against an index slot.
fn score_lt_member(a: &RankedItem, b: &RankedItem) -> (r: bool)
    ensures
        r == rank_lt(a.bits, a.member@, b.bits, b.member@),
{
    if score_lt(a.bits, b.bits) {
        true
    } else if score_lt(b.bits, a.bits) {
        false
    } else {
        proof {
            lemma_score_key_injective(a.bits, b.bits);
        }
        crate::util::bytes_lt(a.member.as_slice(), b.member.as_slice())
    }
}

pub proof fn lemma_z_find_at(sm: Seq<(Seq<u8>, u64, Seq<u8>)>, m: Seq<u8>, i: int)
    requires
        0 <= i < sm.len(),
        sm[i].0 == m,
        forall|j: int| 0 <= j < i ==> (#[trigger] sm[j]).0 != m,
    ensures
        z_find(sm, m) == i,
    decreases i,
{
    if i == 0 {
    } else {
        assert(sm[0].0 != m);
        assert(forall|j: int| 0 <= j < sm.len() - 1 ==> #[trigger] sm.drop_first()[j] == sm[j + 1]);
        lemma_z_find_at(sm.drop_first(), m, i - 1);
    }
}


impl SortedSet {
    /// Bind `member` to a score: update an existing binding and re-rank it,
    /// or insert a new one; whether the member was new.
    pub fn zinsert(&mut self, bits: u64, text: Vec<u8>, member: Vec<u8>) -> (added: bool)
        requires
            old(self).wf(),
        ensures
            final(self).wf(),
            added == (z_find(old(self).scores_model(), member@) == -1),
            ({
                let i = z_find(old(self).scores_model(), member@);
                final(self).scores_model() == if i == -1 {
                    old(self).scores_model().push((member@, bits, text@))
                } else {
                    old(self).scores_model().update(i, (member@, bits, text@))
                }
            }),
    {
        let ghost oldsm = self.scores_model();
        let ghost oldrm = self.ranked_model();
        let m2 = crate::store::clone_bytes(&member);
        match self.find_score(&member) {
            None => {
                proof {
                    lemma_z_find(oldsm, member@);
                    assert forall|j: int| 0 <= j < oldrm.len() implies (#[trigger] oldrm[j]).1
                        != member@ by {
                        if oldrm[j].1 == member@ {
                            assert(ranked_has(oldrm, oldrm[j].0, oldrm[j].1)) by {
                                assert(oldrm[j] == (oldrm[j].0, oldrm[j].1));
                            }
                            assert(scores_has(oldsm, oldrm[j].0, member@));
                            let i0 = choose|i0: int|
                                0 <= i0 < oldsm.len() && (#[trigger] oldsm[i0]).0 == member@
                                    && oldsm[i0].1 == oldrm[j].0;
                        }
                    }
                }
                let ghost pres = self.scores@;
                self.scores.push(ScoreEntry { member, bits, text });
                proof {
                    assert forall|x: int| 0 <= x < self.scores_model().len() implies
                        #[trigger] self.scores_model()[x] == oldsm.push((member@, bits, text@))[x]
                        by {
                        if x < pres.len() {
                            assert(self.scores@[x] == pres[x]);
                        }
                    }
                    assert(self.scores_model() =~= oldsm.push((member@, bits, text@)));
                }
                self.ranked_insert(RankedItem { bits, member: m2 });
                proof {
                    lemma_zset_wf_after_put(oldsm, oldrm, *self, bits, text@, member@, -1);
                }
                true
            },
            Some(i) => {
                let ghost pres = self.scores@;
                let oldent = self.scores.remove(i);
                self.scores.insert(i, ScoreEntry { member, bits, text });
                proof {
                    assert forall|x: int| 0 <= x < self.scores_model().len() implies
                        #[trigger] self.scores_model()[x] == oldsm.update(
                        i as int,
                        (member@, bits, text@),
                    )[x] by {
                        if x != i as int {
                            assert(self.scores@[x] == pres[x]);
                        }
                    }
                    assert(self.scores_model() =~= oldsm.update(i as int, (member@, bits, text@)));
                }
                // Re-rank: take the member's old item out of the index, then
                // insert the new one at its place.
                let j = match self.find_ranked(&m2) {
                    Some(j) => j,
                    None => {
                        proof {
                            assert(scores_has(oldsm, oldsm[i as int].1, member@)) by {
                                assert(oldsm[i as int].0 == member@);
                            }
                            assert(ranked_has(oldrm, oldsm[i as int].1, member@));
                            let jj = choose|jj: int|
                                0 <= jj < oldrm.len() && #[trigger] oldrm[jj] == (
                                oldsm[i as int].1,
                                member@,
                                );
                            assert(self.ranked_model()[jj].1 == member@);
                            assert(false);
                        }
                        0
                    },
                };
                let ghost prerk = self.ranked@;
                self.ranked.remove(j);
                proof {
                    assert forall|x: int| 0 <= x < self.ranked_model().len() implies
                        #[trigger] self.ranked_model()[x] == oldrm.remove(j as int)[x] by {
                        if x < j {
                            assert(self.ranked@[x] == prerk[x]);
                        } else {
                            assert(self.ranked@[x] == prerk[x + 1]);
                        }
                    }
                    assert(self.ranked_model() =~= oldrm.remove(j as int));
                    lemma_ranked_remove(oldrm, j as int);
                    assert forall|jx: int| 0 <= jx < self.ranked_model().len() implies (
                    #[trigger] self.ranked_model()[jx]).1 != member@ by {
                        if jx < j {
                            assert(self.ranked_model()[jx] == oldrm[jx]);
                        } else {
                            assert(self.ranked_model()[jx] == oldrm[jx + 1]);
                        }
                    }
                }
                let mclone = crate::store::clone_bytes(&m2);
                self.ranked_insert(RankedItem { bits, member: mclone });
                proof {
                    let midrm = oldrm.remove(j as int);
                    assert forall|b2: u64, mm: Seq<u8>| #[trigger] ranked_has(
                        midrm,
                        b2,
                        mm,
                    ) implies (mm != member@ && scores_has(oldsm, b2, mm)) by {
                        let x = choose|x: int|
                            0 <= x < midrm.len() && #[trigger] midrm[x] == (b2, mm);
                        if x < j {
                            assert(oldrm[x] == (b2, mm));
                        } else {
                            assert(oldrm[x + 1] == (b2, mm));
                        }
                        assert(ranked_has(oldrm, b2, mm));
                        assert(oldrm[j as int].1 == member@);
                        if x < j {
                            assert(oldrm[x].1 != oldrm[j as int].1);
                        } else {
                            assert(oldrm[j as int].1 != oldrm[x + 1].1);
                        }
                    }
                    assert forall|ix: int|
                        0 <= ix < oldsm.len() && oldsm[ix].0 != member@ implies ranked_has(
                        midrm,
                        (#[trigger] oldsm[ix]).1,
                        oldsm[ix].0,
                    ) by {
                        assert(scores_has(oldsm, oldsm[ix].1, oldsm[ix].0)) by {
                            assert(oldsm[ix] == (oldsm[ix].0, oldsm[ix].1, oldsm[ix].2));
                        }
                        assert(ranked_has(oldrm, oldsm[ix].1, oldsm[ix].0));
                        let x = choose|x: int|
                            0 <= x < oldrm.len() && #[trigger] oldrm[x] == (
                            oldsm[ix].1,
                            oldsm[ix].0,
                            );
                        assert(x != j) by {
                            assert(oldrm[j as int].1 == member@);
                        }
                        if x < j {
                            assert(midrm[x] == oldrm[x]);
                        } else {
                            assert(midrm[x - 1] == oldrm[x]);
                        }
                    }
                    lemma_zset_wf_after_put(oldsm, midrm, *self, bits, text@, member@, i as int);
                }
                let _ = oldent;
                false
            },
        }
    }
}

/// Removing an index slot keeps sortedness and member uniqueness.
pub proof fn lemma_ranked_remove(rm: Seq<(u64, Seq<u8>)>, j: int)
    requires
        0 <= j < rm.len(),
        forall|a: int, b: int|
            0 <= a < b < rm.len() ==> (#[trigger] rm[a]).1 != (#[trigger] rm[b]).1,
        forall|a: int, b: int|
            0 <= a < b < rm.len() ==> rank_lt(
                (#[trigger] rm[a]).0,
                rm[a].1,
                (#[trigger] rm[b]).0,
                rm[b].1,
            ),
    ensures
        forall|a: int, b: int|
            0 <= a < b < rm.remove(j).len() ==> (#[trigger] rm.remove(j)[a]).1 != (
            #[trigger] rm.remove(j)[b]).1,
        forall|a: int, b: int|
            0 <= a < b < rm.remove(j).len() ==> rank_lt(
                (#[trigger] rm.remove(j)[a]).0,
                rm.remove(j)[a].1,
                (#[trigger] rm.remove(j)[b]).0,
                rm.remove(j)[b].1,
            ),
{
    let t = rm.remove(j);
    assert forall|a: int, b: int| 0 <= a < b < t.len() implies (#[trigger] t[a]).1 != (
    #[trigger] t[b]).1 && rank_lt(t[a].0, t[a].1, t[b].0, t[b].1) by {
        let am = if a < j {
            a
        } else {
            a + 1
        };
        let bm = if b < j {
            b
        } else {
            b + 1
        };
        assert(t[a] == rm[am] && t[b] == rm[bm]);
    }
}

/// After a put, the full dual-index invariant is restored.
proof fn lemma_zset_wf_after_put(
    oldsm: Seq<(Seq<u8>, u64, Seq<u8>)>,
    midrm: Seq<(u64, Seq<u8>)>,
    z: SortedSet,
    bits: u64,
    text: Seq<u8>,
    member: Seq<u8>,
    at: int,
)
    requires
        z.wf_ranked(),
        // the new score map
        z.scores_model() == if at == -1 {
            oldsm.push((member, bits, text))
        } else {
            oldsm.update(at, (member, bits, text))
        },
        at == -1 || (0 <= at < oldsm.len() && oldsm[at].0 == member),
        at == -1 ==> (forall|i: int| 0 <= i < oldsm.len() ==> (#[trigger] oldsm[i]).0 != member),
        // old score-map uniqueness
        forall|i: int, j: int|
            0 <= i < j < oldsm.len() ==> (#[trigger] oldsm[i]).0 != (#[trigger] oldsm[j]).0,
        // the index after insertion holds exactly the new pair plus the
        // pairs of other members
        forall|b2: u64, m2: Seq<u8>|
            #[trigger] ranked_has(z.ranked_model(), b2, m2) <==> ((b2 == bits && m2 == member) || (
            ranked_has(midrm, b2, m2))),
        // pairs carried over from the middle state agree with the old map on
        // other members
        forall|b2: u64, m2: Seq<u8>|
            #[trigger] ranked_has(midrm, b2, m2) ==> m2 != member && scores_has(oldsm, b2, m2),
        forall|i: int|
            0 <= i < oldsm.len() && oldsm[i].0 != member ==> ranked_has(
                midrm,
                (#[trigger] oldsm[i]).1,
                oldsm[i].0,
            ),
        z.scores_model().len() == z.ranked_model().len(),
    ensures
        z.wf(),
{
    let sm = z.scores_model();
    let rm = z.ranked_model();
    assert forall|i: int, j: int| 0 <= i < j < sm.len() implies (#[trigger] sm[i]).0 != (
    #[trigger] sm[j]).0 by {
        if at == -1 {
            if j == sm.len() - 1 {
                assert(sm[i] == oldsm[i]);
            } else {
                assert(sm[i] == oldsm[i] && sm[j] == oldsm[j]);
            }
        } else {
            if i != at && j != at {
                assert(sm[i] == oldsm[i] && sm[j] == oldsm[j]);
            } else if i == at {
                assert(sm[j] == oldsm[j]);
            } else {
                assert(sm[i] == oldsm[i]);
            }
        }
    }
    assert forall|i: int| 0 <= i < sm.len() implies ranked_has(rm, (#[trigger] sm[i]).1, sm[i].0)
        by {
        if at == -1 {
            if i == sm.len() - 1 {
                assert(sm[i] == (member, bits, text));
            } else {
                assert(sm[i] == oldsm[i]);
                assert(oldsm[i].0 != member);
            }
        } else {
            if i == at {
                assert(sm[i] == (member, bits, text));
            } else {
                assert(sm[i] == oldsm[i]);
                assert(oldsm[i].0 != member);
            }
        }
    }
    assert forall|j: int| 0 <= j < rm.len() implies scores_has(sm, (#[trigger] rm[j]).0, rm[j].1)
        by {
        assert(ranked_has(rm, rm[j].0, rm[j].1)) by {
            assert(rm[j] == (rm[j].0, rm[j].1));
        }
        if rm[j].0 == bits && rm[j].1 == member {
            if at == -1 {
                assert(sm[sm.len() - 1] == (member, bits, text));
            } else {
                assert(sm[at] == (member, bits, text));
            }
        } else {
            assert(ranked_has(midrm, rm[j].0, rm[j].1));
            assert(scores_has(oldsm, rm[j].0, rm[j].1));
            let i0 = choose|i0: int|
                0 <= i0 < oldsm.len() && (#[trigger] oldsm[i0]).0 == rm[j].1 && oldsm[i0].1 == rm[
                j].0;
            if at == -1 {
                assert(sm[i0] == oldsm[i0]);
            } else {
                assert(i0 != at);
                assert(sm[i0] == oldsm[i0]);
            }
        }
    }
}


impl SortedSet {
    /// Drop `member` from both indices; whether it was bound.
    pub fn zremove(&mut self, member: &Vec<u8>) -> (removed: bool)
        requires
            old(self).wf(),
        ensures
            final(self).wf(),
            removed == (z_find(old(self).scores_model(), member@) != -1),
            ({
                let i = z_find(old(self).scores_model(), member@);
                final(self).scores_model() == if i == -1 {
                    old(self).scores_model()
                } else {
                    old(self).scores_model().remove(i)
                }
            }),
    {
        let ghost oldsm = self.scores_model();
        let ghost oldrm = self.ranked_model();
        match self.find_score(member) {
            None => {
                false
            },
            Some(i) => {
                let ghost pres = self.scores@;
                self.scores.remove(i);
                proof {
                    assert forall|x: int| 0 <= x < self.scores_model().len() implies
                        #[trigger] self.scores_model()[x] == oldsm.remove(i as int)[x] by {
                        if x < i {
                            assert(self.scores@[x] == pres[x]);
                        } else {
                            assert(self.scores@[x] == pres[x + 1]);
                        }
                    }
                    assert(self.scores_model() =~= oldsm.remove(i as int));
                }
                let j = match self.find_ranked(member) {
                    Some(j) => j,
                    None => {
                        proof {
                            assert(scores_has(oldsm, oldsm[i as int].1, member@)) by {
                                assert(oldsm[i as int].0 == member@);
                            }
                            assert(ranked_has(oldrm, oldsm[i as int].1, member@));
                            let jj = choose|jj: int|
                                0 <= jj < oldrm.len() && #[trigger] oldrm[jj] == (
                                oldsm[i as int].1,
                                member@,
                                );
                            assert(self.ranked_model()[jj].1 == member@);
                            assert(false);
                        }
                        0
                    },
                };
                let ghost prerk = self.ranked@;
                self.ranked.remove(j);
                proof {
                    assert forall|x: int| 0 <= x < self.ranked_model().len() implies
                        #[trigger] self.ranked_model()[x] == oldrm.remove(j as int)[x] by {
                        if x < j {
                            assert(self.ranked@[x] == prerk[x]);
                        } else {
                            assert(self.ranked@[x] == prerk[x + 1]);
                        }
                    }
                    assert(self.ranked_model() =~= oldrm.remove(j as int));
                    lemma_ranked_remove(oldrm, j as int);
                    let sm = self.scores_model();
                    let rm = self.ranked_model();
                    assert(oldrm[j as int].1 == member@);
                    assert forall|a: int, b: int| 0 <= a < b < sm.len() implies (
                    #[trigger] sm[a]).0 != (#[trigger] sm[b]).0 by {
                        let am = if a < i {
                            a
                        } else {
                            a + 1
                        };
                        let bm = if b < i {
                            b
                        } else {
                            b + 1
                        };
                        assert(sm[a] == oldsm[am] && sm[b] == oldsm[bm]);
                    }
                    assert forall|x: int| 0 <= x < sm.len() implies ranked_has(
                        rm,
                        (#[trigger] sm[x]).1,
                        sm[x].0,
                    ) by {
                        let xm = if x < i {
                            x
                        } else {
                            x + 1
                        };
                        assert(sm[x] == oldsm[xm]);
                        assert(oldsm[xm].0 != member@) by {
                            if xm != i {
                                assert(oldsm[i as int].0 == member@);
                            }
                        }
                        assert(scores_has(oldsm, oldsm[xm].1, oldsm[xm].0)) by {
                            assert(oldsm[xm] == (oldsm[xm].0, oldsm[xm].1, oldsm[xm].2));
                        }
                        assert(ranked_has(oldrm, oldsm[xm].1, oldsm[xm].0));
                        let y = choose|y: int|
                            0 <= y < oldrm.len() && #[trigger] oldrm[y] == (
                            oldsm[xm].1,
                            oldsm[xm].0,
                            );
                        assert(y != j);
                        if y < j {
                            assert(rm[y] == oldrm[y]);
                        } else {
                            assert(rm[y - 1] == oldrm[y]);
                        }
                    }
                    assert forall|y: int| 0 <= y < rm.len() implies scores_has(
                        sm,
                        (#[trigger] rm[y]).0,
                        rm[y].1,
                    ) by {
                        let ym = if y < j {
                            y
                        } else {
                            y + 1
                        };
                        assert(rm[y] == oldrm[ym]);
                        assert(ranked_has(oldrm, oldrm[ym].0, oldrm[ym].1)) by {
                            assert(oldrm[ym] == (oldrm[ym].0, oldrm[ym].1));
                        }
                        assert(scores_has(oldsm, oldrm[ym].0, oldrm[ym].1));
                        let x = choose|x: int|
                            0 <= x < oldsm.len() && (#[trigger] oldsm[x]).0 == oldrm[ym].1 && oldsm[
                            x].1 == oldrm[ym].0;
                        assert(oldrm[ym].1 != member@) by {
                            if ym != j {
                                assert(oldrm[j as int].1 != oldrm[ym].1);
                            }
                        }
                        assert(x != i);
                        if x < i {
                            assert(sm[x] == oldsm[x]);
                            assert(scores_has(sm, rm[y].0, rm[y].1)) by {
                                assert(sm[x].0 == rm[y].1 && sm[x].1 == rm[y].0);
                            }
                        } else {
                            assert(sm[x - 1] == oldsm[x]);
                            assert(scores_has(sm, rm[y].0, rm[y].1)) by {
                                assert(sm[x - 1].0 == rm[y].1 && sm[x - 1].1 == rm[y].0);
                            }
                        }
                    }
                }
                true
            },
        }
    }

    /// ZSCORE lookup: the stored score of a member, as bits and text.
    pub fn score_of(&self, member: &Vec<u8>) -> (r: Option<(u64, Vec<u8>)>)
        ensures
            match r {
                Some((bits, text)) => ({
                    let i = z_find(self.scores_model(), member@);
                    i != -1 && self.scores_model()[i].1 == bits && self.scores_model()[i].2
                        == text@
                }),
                None => z_find(self.scores_model(), member@) == -1,
            },
    {
        match self.find_score(member) {
            None => None,
            Some(i) => Some(
                (self.scores[i].bits, crate::store::clone_bytes(&self.scores[i].text)),
            ),
        }
    }
}


/// The error returned when a sorted-set command meets another type.
pub open spec fn spec_not_zset() -> Seq<u8> {
    seq![78u8, 111u8, 116u8, 32u8, 97u8, 32u8, 115u8, 111u8, 114u8, 116u8, 101u8, 100u8, 32u8, 115u8, 101u8, 116u8]
}

fn not_zset() -> (r: Vec<u8>)
    ensures
        r@ == spec_not_zset(),
{
    let mut v: Vec<u8> = Vec::new();
    v.push(78);
    v.push(111);
    v.push(116);
    v.push(32);
    v.push(97);
    v.push(32);
    v.push(115);
    v.push(111);
    v.push(114);
    v.push(116);
    v.push(101);
    v.push(100);
    v.push(32);
    v.push(115);
    v.push(101);
    v.push(116);
    assert(v@ =~= spec_not_zset());
    v
}

/// The fold never shrinks the score map, and yields a non-empty map when
/// anything was offered.
pub proof fn lemma_zadd_scores_len(sm: Seq<(Seq<u8>, u64, Seq<u8>)>, args: Seq<(u64, Seq<u8>, Seq<u8>)>)
    ensures
        spec_zadd_scores(sm, args).0.len() >= sm.len(),
        sm.len() == 0 && args.len() > 0 ==> spec_zadd_scores(sm, args).0.len() >= 1,
        0 <= spec_zadd_scores(sm, args).1 <= args.len(),
    decreases args.len(),
{
    if args.len() > 0 {
        lemma_zadd_scores_len(sm, args.drop_last());
        lemma_z_find(spec_zadd_scores(sm, args.drop_last()).0, args.last().2);
    }
}

pub proof fn lemma_zrem_scores_len(sm: Seq<(Seq<u8>, u64, Seq<u8>)>, ms: Seq<Seq<u8>>)
    ensures
        spec_zrem_scores(sm, ms).0.len() <= sm.len(),
        0 <= spec_zrem_scores(sm, ms).1 <= ms.len(),
    decreases ms.len(),
{
    if ms.len() > 0 {
        lemma_zrem_scores_len(sm, ms.drop_last());
        lemma_z_find(spec_zrem_scores(sm, ms.drop_last()).0, ms.last());
    }
}

impl crate::store::MemoryStorage {
    /// ZADD: bind each (score, member) pair in order, creating the sorted set
    /// if the key is missing or expired; how many members were new. Fails on
    /// a live value of another type and changes nothing.
    #[verifier::loop_isolation(false)]
    pub fn zadd(&mut self, key: &Vec<u8>, args: Vec<ZAddEntry>, now: u64) -> (r: Result<
        i64,
        Vec<u8>,
    >)
        requires
            old(self).wf(),
            args@.len() >= 1,
            args@.len() <= i64::MAX,
        ensures
            final(self).wf(),
            forall|k2: Seq<u8>|
                k2 != key@ ==> #[trigger] final(self).spec_entry(k2) == old(self).spec_entry(k2),
            match r {
                Ok(n) => ({
                    let base = match old(self).spec_get(key@, now) {
                        Some(crate::store::VModel::MZSet(sm, _)) => sm,
                        _ => Seq::empty(),
                    };
                    let out = spec_zadd_scores(base, zargs_model(args@));
                    let exp = if old(self).spec_get(key@, now) is Some {
                        crate::list::entry_expiry(old(self).spec_entry(key@))
                    } else {
                        None
                    };
                    &&& !(old(self).spec_get(key@, now) matches Some(v) && !(v is MZSet))
                    &&& (final(self).spec_entry(key@) matches Some(e) && e.0 == exp && (
                    e.1 matches crate::store::VModel::MZSet(sm2, rm2) && sm2 == out.0))
                    &&& n == out.1
                }),
                Err(e) => ({
                    &&& old(self).spec_get(key@, now) matches Some(v) && !(v is MZSet)
                    &&& e@ == spec_not_zset()
                    &&& final(self).entries@ == old(self).entries@
                }),
            },
    {
        let ghost old_self = *self;
        let mut zs: SortedSet = SortedSet::empty();
        let mut exp: Option<u64> = None;
        let mut at: Option<usize> = None;
        match self.find_idx(key) {
            None => {},
            Some(i) => {
                let o = &self.entries[i].1;
                if crate::store::obj_live(o, now) {
                    match &o.data {
                        crate::store::RedisDataType::SortedSet(_) => {},
                        _ => {
                            return Err(not_zset());
                        },
                    }
                }
                at = Some(i);
            },
        }
        let idx_opt = at;
        match idx_opt {
            Some(i) => {
                let (k, o) = self.entries.remove(i);
                let live_now = crate::store::obj_live(&o, now);
                let crate::store::RedisObject { expires_at, data } = o;
                if live_now {
                    exp = expires_at;
                    match data {
                        crate::store::RedisDataType::SortedSet(z) => {
                            zs = z;
                        },
                        _ => {
                            proof {
                                assert(false);
                            }
                        },
                    }
                }
                let _ = k;
            },
            None => {},
        }
        let ghost base = zs.scores_model();
        let ghost am = zargs_model(args@);
        proof {
            match old(self).spec_get(key@, now) {
                Some(crate::store::VModel::MZSet(s0, _)) => {
                    assert(base == s0);
                },
                _ => {
                    assert(base =~= Seq::<(Seq<u8>, u64, Seq<u8>)>::empty());
                },
            }
        }
        let mut rest = args;
        let mut added: i64 = 0;
        let ghost n = am.len();
        while rest.len() > 0
            invariant
                zargs_model(rest@) =~= am.skip(n - rest@.len()),
                rest@.len() <= n,
                n <= i64::MAX,
                0 <= added <= n - rest@.len(),
                zs.wf(),
                (zs.scores_model(), added as int) == spec_zadd_scores(base, am.take(n
                    - rest@.len())),
            decreases rest@.len(),
        {
            let ghost done = n - rest@.len();
            let ghost prer = rest@;
            let a = rest.remove(0);
            proof {
                assert(zargs_model(prer)[0] == (a.bits, a.text@, a.member@));
                assert(am.skip(done)[0] == am[done]);
                assert forall|x: int| 0 <= x < rest@.len() implies #[trigger] zargs_model(
                    rest@,
                )[x] == am.skip(done + 1)[x] by {
                    assert(rest@[x] == prer[x + 1]);
                    assert(zargs_model(prer)[x + 1] == am.skip(done)[x + 1]);
                }
                assert(zargs_model(rest@) =~= am.skip(done + 1));
                assert(am.take(done + 1).drop_last() =~= am.take(done));
                assert(am.take(done + 1).last() == am[done]);
            }
            let ZAddEntry { bits, text, member } = a;
            let was_added = zs.zinsert(bits, text, member);
            if was_added {
                added = added + 1;
            }
        }
        proof {
            assert(am.take(n as int) =~= am);
            lemma_zadd_scores_len(base, am);
        }
        let new_obj = crate::store::RedisObject {
            expires_at: exp,
            data: crate::store::RedisDataType::SortedSet(zs),
        };
        match idx_opt {
            Some(i) => {
                self.entries.insert(i, (crate::store::clone_bytes(key), new_obj));
                proof {
                    assert(self.entries@ =~= old_self.entries@.update(
                        i as int,
                        (self.entries@[i as int].0, new_obj),
                    ));
                    crate::store::lemma_lookup_update(
                        old_self.entries@,
                        i as int,
                        (self.entries@[i as int].0, new_obj),
                    );
                }
            },
            None => {
                let kc = crate::store::clone_bytes(key);
                let ghost prev = self.entries@;
                self.entries.push((kc, new_obj));
                proof {
                    crate::store::lemma_lookup_push(prev, prev.push((kc, new_obj)).last());
                    assert(self.entries@ =~= prev.push(prev.push((kc, new_obj)).last()));
                }
            },
        }
        Ok(added)
    }

    /// ZREM: drop members from a live sorted set; how many were bound. The
    /// key is removed when the set empties. Fails on a live value of another
    /// type.
    #[verifier::loop_isolation(false)]
    pub fn zrem(&mut self, key: &Vec<u8>, members: Vec<Vec<u8>>, now: u64) -> (r: Result<
        i64,
        Vec<u8>,
    >)
        requires
            old(self).wf(),
            members@.len() <= i64::MAX,
        ensures
            final(self).wf(),
            forall|k2: Seq<u8>|
                k2 != key@ ==> #[trigger] final(self).spec_entry(k2) == old(self).spec_entry(k2),
            match r {
                Ok(n) => match old(self).spec_get(key@, now) {
                    Some(crate::store::VModel::MZSet(sm, _)) => ({
                        let out = spec_zrem_scores(sm, crate::store::seq_views(members@));
                        &&& n == out.1
                        &&& (out.0.len() == 0 ==> final(self).spec_entry(key@) is None)
                        &&& (out.0.len() > 0 ==> (final(self).spec_entry(key@) matches Some(e)
                            && e.0 == crate::list::entry_expiry(old(self).spec_entry(key@)) && (
                        e.1 matches crate::store::VModel::MZSet(sm2, rm2) && sm2 == out.0)))
                    }),
                    None => n == 0 && final(self).entries@ == old(self).entries@,
                    Some(_) => false,
                },
                Err(e) => ({
                    &&& old(self).spec_get(key@, now) matches Some(v) && !(v is MZSet)
                    &&& e@ == spec_not_zset()
                    &&& final(self).entries@ == old(self).entries@
                }),
            },
    {
        let ghost old_self = *self;
        let i = match self.find_idx(key) {
            None => {
                return Ok(0);
            },
            Some(i) => i,
        };
        {
            let o = &self.entries[i].1;
            if !crate::store::obj_live(o, now) {
                return Ok(0);
            }
            match &o.data {
                crate::store::RedisDataType::SortedSet(_) => {},
                _ => {
                    return Err(not_zset());
                },
            }
        }
        let (k, o) = self.entries.remove(i);
        let crate::store::RedisObject { expires_at, data } = o;
        let mut zs = match data {
            crate::store::RedisDataType::SortedSet(z) => z,
            _ => {
                proof {
                    assert(false);
                }
                SortedSet::empty()
            },
        };
        let ghost base = zs.scores_model();
        let ghost ms = crate::store::seq_views(members@);
        let mut rest = members;
        let mut removed: i64 = 0;
        let ghost n = ms.len();
        while rest.len() > 0
            invariant
                crate::store::seq_views(rest@) =~= ms.skip(n - rest@.len()),
                rest@.len() <= n,
                n <= i64::MAX,
                0 <= removed <= n - rest@.len(),
                zs.wf(),
                (zs.scores_model(), removed as int) == spec_zrem_scores(base, ms.take(n
                    - rest@.len())),
            decreases rest@.len(),
        {
            let ghost done = n - rest@.len();
            let ghost prer = rest@;
            let m = rest.remove(0);
            proof {
                assert(crate::store::seq_views(prer)[0] == m@);
                assert(ms.skip(done)[0] == ms[done]);
                assert(crate::store::seq_views(rest@) =~= crate::store::seq_views(
                    prer,
                ).drop_first());
                assert(crate::store::seq_views(prer).drop_first() =~= ms.skip(done + 1));
                assert(ms.take(done + 1).drop_last() =~= ms.take(done));
                assert(ms.take(done + 1).last() == ms[done]);
            }
            let was_removed = zs.zremove(&m);
            if was_removed {
                removed = removed + 1;
            }
        }
        proof {
            assert(ms.take(n as int) =~= ms);
            crate::store::lemma_lookup_remove(old_self.entries@, i as int);
        }
        if zs.scores.len() == 0 {
            let _ = k;
            let _ = expires_at;
            Ok(removed)
        } else {
            let new_obj = crate::store::RedisObject {
                expires_at,
                data: crate::store::RedisDataType::SortedSet(zs),
            };
            self.entries.insert(i, (k, new_obj));
            proof {
                assert(self.entries@ =~= old_self.entries@.update(
                    i as int,
                    (self.entries@[i as int].0, new_obj),
                ));
                crate::store::lemma_lookup_update(
                    old_self.entries@,
                    i as int,
                    (self.entries@[i as int].0, new_obj),
                );
            }
            Ok(removed)
        }
    }

    /// ZCARD: the number of members; 0 for a missing or expired key. Fails
    /// on a live value of another type.
    pub fn zcard(&self, key: &Vec<u8>, now: u64) -> (r: Result<i64, Vec<u8>>)
        ensures
            match r {
                Ok(n) => match self.spec_get(key@, now) {
                    Some(crate::store::VModel::MZSet(sm, _)) => n == if sm.len() <= i64::MAX {
                        sm.len() as int
                    } else {
                        0
                    },
                    None => n == 0,
                    Some(_) => false,
                },
                Err(e) => (self.spec_get(key@, now) matches Some(v) && !(v is MZSet)) && e@
                    == spec_not_zset(),
            },
    {
        match self.find_idx(key) {
            None => Ok(0),
            Some(i) => {
                let o = &self.entries[i].1;
                if !crate::store::obj_live(o, now) {
                    return Ok(0);
                }
                match &o.data {
                    crate::store::RedisDataType::SortedSet(z) => {
                        let nlen = z.scores.len();
                        if nlen as u64 <= 0x7FFFFFFFFFFFFFFFu64 {
                            Ok(nlen as i64)
                        } else {
                            Ok(0)
                        }
                    },
                    _ => Err(not_zset()),
                }
            },
        }
    }

    /// ZSCORE: the stored score text of a member, if bound. Fails on a live
    /// value of another type.
    pub fn zscore(&self, key: &Vec<u8>, member: &Vec<u8>, now: u64) -> (r: Result<
        Option<Vec<u8>>,
        Vec<u8>,
    >)
        ensures
            match r {
                Ok(out) => match self.spec_get(key@, now) {
                    Some(crate::store::VModel::MZSet(sm, _)) => match out {
                        Some(t) => z_find(sm, member@) != -1 && sm[z_find(sm, member@)].2 == t@,
                        None => z_find(sm, member@) == -1,
                    },
                    None => out is None,
                    Some(_) => false,
                },
                Err(e) => (self.spec_get(key@, now) matches Some(v) && !(v is MZSet)) && e@
                    == spec_not_zset(),
            },
    {
        match self.find_idx(key) {
            None => Ok(None),
            Some(i) => {
                let o = &self.entries[i].1;
                if !crate::store::obj_live(o, now) {
                    return Ok(None);
                }
                match &o.data {
                    crate::store::RedisDataType::SortedSet(z) => {
                        match z.score_of(member) {
                            Some((_, text)) => Ok(Some(text)),
                            None => Ok(None),
                        }
                    },
                    _ => Err(not_zset()),
                }
            },
        }
    }

    /// ZRANK: the member's 0-based position in the ordered index. Fails on a
    /// live value of another type.
    pub fn zrank(&self, key: &Vec<u8>, member: &Vec<u8>, now: u64) -> (r: Result<
        Option<i64>,
        Vec<u8>,
    >)
        ensures
            match r {
                Ok(out) => match self.spec_get(key@, now) {
                    Some(crate::store::VModel::MZSet(_, rm)) => match out {
                        Some(x) => 0 <= x < rm.len() && rm[x as int].1 == member@,
                        None => !(exists|j: int| 0 <= j < rm.len() && (#[trigger] rm[j]).1
                            == member@) || rm.len() > i64::MAX,
                    },
                    None => out is None,
                    Some(_) => false,
                },
                Err(e) => (self.spec_get(key@, now) matches Some(v) && !(v is MZSet)) && e@
                    == spec_not_zset(),
            },
    {
        match self.find_idx(key) {
            None => Ok(None),
            Some(i) => {
                let o = &self.entries[i].1;
                if !crate::store::obj_live(o, now) {
                    return Ok(None);
                }
                match &o.data {
                    crate::store::RedisDataType::SortedSet(z) => {
                        if z.ranked.len() as u64 > 0x7FFFFFFFFFFFFFFFu64 {
                            return Ok(None);
                        }
                        match z.find_ranked(member) {
                            Some(j) => Ok(Some(j as i64)),
                            None => {
                                proof {
                                    let rm = z.ranked_model();
                                    if exists|jj: int|
                                        0 <= jj < rm.len() && (#[trigger] rm[jj]).1 == member@ {
                                        let jj = choose|jj: int|
                                            0 <= jj < rm.len() && (#[trigger] rm[jj]).1
                                                == member@;
                                        assert(rm[jj].1 != member@);
                                    }
                                }
                                Ok(None)
                            },
                        }
                    },
                    _ => Err(not_zset()),
                }
            },
        }
    }

    /// ZRANGE: the members of the translated index window, in rank order.
    /// Fails on a live value of another type.
    #[verifier::loop_isolation(false)]
    pub fn zrange(&self, key: &Vec<u8>, start: i64, stop: i64, now: u64) -> (r: Result<
        Vec<Vec<u8>>,
        Vec<u8>,
    >)
        ensures
            match r {
                Ok(out) => match self.spec_get(key@, now) {
                    Some(crate::store::VModel::MZSet(_, rm)) => crate::store::seq_views(out@)
                        == crate::list::spec_range(ranked_members(rm), start as int, stop as int),
                    None => out@.len() == 0,
                    Some(_) => false,
                },
                Err(e) => (self.spec_get(key@, now) matches Some(v) && !(v is MZSet)) && e@
                    == spec_not_zset(),
            },
    {
        match self.find_idx(key) {
            None => Ok(Vec::new()),
            Some(i) => {
                let o = &self.entries[i].1;
                if !crate::store::obj_live(o, now) {
                    return Ok(Vec::new());
                }
                match &o.data {
                    crate::store::RedisDataType::SortedSet(z) => {
                        let ghost rmem = ranked_members(z.ranked_model());
                        let len: i128 = z.ranked.len() as i128;
                        let b0: i128 = if start < 0 {
                            len + start as i128
                        } else {
                            start as i128
                        };
                        let b: i128 = if b0 < 0 {
                            0
                        } else {
                            b0
                        };
                        let e0: i128 = if stop < 0 {
                            len + stop as i128
                        } else {
                            stop as i128
                        };
                        let e: i128 = if e0 > len - 1 {
                            len - 1
                        } else {
                            e0
                        };
                        let mut out: Vec<Vec<u8>> = Vec::new();
                        if b >= len || b > e {
                            proof {
                                assert(crate::store::seq_views(out@) =~= crate::list::spec_range(
                                    rmem,
                                    start as int,
                                    stop as int,
                                ));
                            }
                            return Ok(out);
                        }
                        let mut x: usize = b as usize;
                        let stop_at: usize = e as usize;
                        while x <= stop_at
                            invariant
                                b <= x,
                                x <= stop_at + 1,
                                stop_at < z.ranked@.len(),
                                crate::store::seq_views(out@) =~= rmem.subrange(b as int, x as int),
                            decreases stop_at + 1 - x,
                        {
                            out.push(crate::store::clone_bytes(&z.ranked[x].member));
                            proof {
                                assert(crate::store::seq_views(out@) =~= rmem.subrange(
                                    b as int,
                                    x as int + 1,
                                ));
                            }
                            x = x + 1;
                        }
                        proof {
                            assert(crate::store::seq_views(out@) =~= crate::list::spec_range(
                                rmem,
                                start as int,
                                stop as int,
                            ));
                        }
                        Ok(out)
                    },
                    _ => Err(not_zset()),
                }
            },
        }
    }
}

/// The dual-index cardinality law: in every well-formed sorted set, the score
/// map and the ordered index hold exactly as many items as each other.
pub proof fn lemma_dual_index_cardinality(z: SortedSet)
    requires
        z.wf(),
    ensures
        z.scores_model().len() == z.ranked_model().len(),
{
}

} // verus!
