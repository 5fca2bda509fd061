//! One level of the backtracking search: the pool of letters still
//! placeable from this level downward, the worklist of not-yet-tried
//! permutations drawn from it, and the permutation currently committed.

use vstd::multiset::Multiset;
use vstd::prelude::*;

use crate::morse::{chars_to_smooshedmerse, is_alphabet_letter, smoosh, ValidationError};
use itertools::Itertools;

verus! {

/// The predicate selecting the characters that `taken` does not hold.
pub open spec fn not_in(taken: Seq<char>) -> spec_fn(char) -> bool {
    |c: char| !taken.contains(c)
}

/// The effective chunk size of a frame: the branching limit, clamped to
/// the pool's size.
pub open spec fn chunk_of(increment: int, pool_len: int) -> int {
    if increment > pool_len {
        pool_len
    } else {
        increment
    }
}

/// Whether the worklist still holds the given permutation.
pub open spec fn in_worklist(wl: Seq<Vec<char>>, p: Seq<char>) -> bool {
    exists|j: int| 0 <= j < wl.len() && wl[j]@ == p
}

/// Whether the frame's worklist holds every permutation of `perm_size`
/// letters drawn from the pool.
pub open spec fn worklist_exhaustive(fr: SegmentChars) -> bool {
    forall|p: Seq<char>|
        p.len() == fr.perm_size as int && (#[trigger] p.to_multiset()).subset_of(
            fr.source@.to_multiset(),
        ) ==> in_worklist(fr.permutations@, p)
}

pub proof fn lemma_filter_count(s: Seq<char>, pred: spec_fn(char) -> bool, x: char)
    ensures
        s.filter(pred).to_multiset().count(x) == if pred(x) {
            s.to_multiset().count(x)
        } else {
            0
        },
    decreases s.len(),
{
    broadcast use vstd::seq_lib::group_to_multiset_ensures;
    broadcast use vstd::multiset::group_multiset_axioms;

    reveal(Seq::filter);
    if s.len() == 0 {
        assert(s.to_multiset() =~= Multiset::<char>::empty());
    } else {
        lemma_filter_count(s.drop_last(), pred, x);
        assert(s =~= s.drop_last().push(s.last()));
        assert(s.drop_last().push(s.last()).to_multiset() =~= s.drop_last().to_multiset().insert(
            s.last(),
        ));
    }
}

/// A sequence whose multiset is contained in that of a duplicate-free
/// sequence is itself duplicate-free.
pub proof fn lemma_sub_multiset_no_duplicates(sub: Seq<char>, sup: Seq<char>)
    requires
        sub.to_multiset().subset_of(sup.to_multiset()),
        sup.no_duplicates(),
    ensures
        sub.no_duplicates(),
{
    broadcast use vstd::seq_lib::group_to_multiset_ensures;
    broadcast use vstd::multiset::group_multiset_axioms;

    sup.lemma_multiset_has_no_duplicates();
    assert(forall|x: char| sub.to_multiset().contains(x) ==> sub.to_multiset().count(x) == 1);
    sub.lemma_multiset_has_no_duplicates_conv();
}

/// Every element of a multiset-contained sequence is an element of the
/// containing one, so alphabet letters stay alphabet letters.
pub proof fn lemma_sub_multiset_letters(sub: Seq<char>, sup: Seq<char>)
    requires
        sub.to_multiset().subset_of(sup.to_multiset()),
        forall|k: int| 0 <= k < sup.len() ==> is_alphabet_letter(#[trigger] sup[k]),
    ensures
        forall|k: int| 0 <= k < sub.len() ==> is_alphabet_letter(#[trigger] sub[k]),
{
    broadcast use vstd::seq_lib::group_to_multiset_ensures;
    broadcast use vstd::multiset::group_multiset_axioms;

    assert forall|k: int| 0 <= k < sub.len() implies is_alphabet_letter(#[trigger] sub[k]) by {
        assert(sub.contains(sub[k]));
        assert(sub.to_multiset().count(sub[k]) > 0);
        assert(sup.to_multiset().count(sub[k]) > 0);
        assert(sup.contains(sub[k]));
        let w = choose|j: int| 0 <= j < sup.len() && sup[j] == sub[k];
        assert(is_alphabet_letter(sup[w]));
    }
}

/// Taking nothing leaves the pool as it is.
proof fn lemma_filter_not_in_empty(s: Seq<char>)
    ensures
        s.filter(not_in(Seq::<char>::empty())) == s,
    decreases s.len(),
{
    reveal(Seq::filter);
    if s.len() != 0 {
        lemma_filter_not_in_empty(s.drop_last());
        assert(!Seq::<char>::empty().contains(s.last()));
        assert(s.drop_last().filter(not_in(Seq::<char>::empty())).push(s.last()) =~= s);
    }
}

/// Removing a duplicate-free selection from a duplicate-free pool by
/// filtering splits the pool's multiset exactly.
pub proof fn lemma_get_left_multiset(source: Seq<char>, taken: Seq<char>)
    requires
        source.no_duplicates(),
        taken.no_duplicates(),
        taken.to_multiset().subset_of(source.to_multiset()),
    ensures
        source.filter(not_in(taken)).to_multiset().add(taken.to_multiset())
            == source.to_multiset(),
{
    broadcast use vstd::seq_lib::group_to_multiset_ensures;
    broadcast use vstd::multiset::group_multiset_axioms;

    source.lemma_multiset_has_no_duplicates();
    taken.lemma_multiset_has_no_duplicates();
    let left = source.filter(not_in(taken));
    assert forall|x: char|
        left.to_multiset().count(x) + taken.to_multiset().count(x) == source.to_multiset().count(
            x,
        ) by {
        lemma_filter_count(source, not_in(taken), x);
        if taken.contains(x) {
            assert(taken.to_multiset().count(x) == 1);
            assert(source.to_multiset().count(x) >= 1);
            assert(source.to_multiset().count(x) == 1);
        } else {
            assert(taken.to_multiset().count(x) == 0);
        }
    }
    assert(left.to_multiset().add(taken.to_multiset()) =~= source.to_multiset());
}

/// The search state at one level.
#[derive(Debug)]
pub struct SegmentChars {
    /// The permutation currently committed at this level.
    pub take: Vec<char>,
    /// The committed permutation's smooshed bit pattern.
    pub merse_take: Vec<bool>,
    /// The pool minus the committed permutation's letters.
    pub left: Vec<char>,
    /// The pool of letters still placeable from this level downward.
    pub source: Vec<char>,
    /// How many letters this level attempts to place at once.
    pub perm_size: usize,
    /// The not-yet-tried permutations of `perm_size` letters from the pool.
    pub permutations: Vec<Vec<char>>,
}

/// What every frame maintains: a duplicate-free pool of letters, worklist
/// entries drawn from the pool with no two entries alike, the committed
/// bits matching the committed letters, and the leftover pool splitting
/// off the committed letters.
pub open spec fn frame_inv(fr: SegmentChars) -> bool {
    &&& fr.source@.no_duplicates()
    &&& forall|k: int| 0 <= k < fr.source@.len() ==> is_alphabet_letter(#[trigger] fr.source@[k])
    &&& forall|j: int|
        0 <= j < fr.permutations@.len() ==> (#[trigger] fr.permutations@[j]@).to_multiset().subset_of(
            fr.source@.to_multiset(),
        ) && fr.permutations@[j]@.len() == fr.perm_size
    &&& forall|j1: int, j2: int|
        0 <= j1 < j2 < fr.permutations@.len() ==> fr.permutations@[j1]@ != fr.permutations@[j2]@
    &&& fr.merse_take@ == smoosh(fr.take@)
    &&& fr.take@.to_multiset().subset_of(fr.source@.to_multiset())
    &&& fr.take@.len() != 0 ==> fr.left@.to_multiset().add(fr.take@.to_multiset())
        == fr.source@.to_multiset()
}

/// Relies on `itertools::Itertools::permutations`: it yields all the
/// `k`-permutations of the source, each picking `k` elements at pairwise
/// distinct positions, so every length-`k` selection within the source's
/// multiset appears among the results; and distinct index tuples over a
/// duplicate-free source yield distinct sequences, so each appears once.
#[verifier::external_body]
fn permutations_of(chars: &[char], k: usize) -> (r: Vec<Vec<char>>)
    requires
        chars@.no_duplicates(),
    ensures
        forall|j: int|
            0 <= j < r@.len() ==> (#[trigger] r@[j]@).len() == k && r@[j]@.to_multiset().subset_of(
                chars@.to_multiset(),
            ),
        forall|p: Seq<char>|
            p.len() == k as int && (#[trigger] p.to_multiset()).subset_of(chars@.to_multiset())
                ==> in_worklist(r@, p),
        forall|j1: int, j2: int| 0 <= j1 < j2 < r@.len() ==> r@[j1]@ != r@[j2]@,
{
    chars.to_vec().into_iter().permutations(k).collect()
}

fn slice_contains(s: &[char], c: char) -> (r: bool)
    ensures
        r == s@.contains(c),
{
    let mut j: usize = 0;
    while j < s.len()
        invariant
            j <= s@.len(),
            forall|t: int| 0 <= t < j ==> s@[t] != c,
        decreases s@.len() - j,
    {
        if s[j] == c {
            return true;
        }
        j = j + 1;
    }
    false
}

pub(crate) fn slice_to_vec(s: &[char]) -> (r: Vec<char>)
    ensures
        r@ == s@,
{
    let mut v: Vec<char> = Vec::new();
    let mut i: usize = 0;
    while i < s.len()
        invariant
            i <= s@.len(),
            v@ == s@.take(i as int),
        decreases s@.len() - i,
    {
        v.push(s[i]);
        proof {
            assert(s@.take(i as int + 1) =~= s@.take(i as int).push(s@[i as int]));
        }
        i = i + 1;
    }
    proof {
        assert(s@.take(s@.len() as int) =~= s@);
    }
    v
}

impl SegmentChars {
    /// A fresh frame over the given pool: the effective chunk size clamps
    /// to the pool's size, and the worklist holds the permutations of that
    /// many letters from the pool.
    pub fn init(chars: &[char], perm_size: usize) -> (r: SegmentChars)
        requires
            chars@.no_duplicates(),
            forall|k: int| 0 <= k < chars@.len() ==> is_alphabet_letter(#[trigger] chars@[k]),
        ensures
            r.source@ == chars@,
            r.perm_size == if perm_size > chars@.len() {
                chars@.len() as usize
            } else {
                perm_size
            },
            r.perm_size as int == chunk_of(perm_size as int, chars@.len() as int),
            r.take@ == Seq::<char>::empty(),
            r.merse_take@ == Seq::<bool>::empty(),
            r.left@ == Seq::<char>::empty(),
            frame_inv(r),
            worklist_exhaustive(r),
            r.permutations@.no_duplicates(),
    {
        let perm_size = if perm_size > chars.len() {
            chars.len()
        } else {
            perm_size
        };
        let permutations = permutations_of(chars, perm_size);
        let r = SegmentChars {
            source: slice_to_vec(chars),
            perm_size,
            take: Vec::new(),
            merse_take: Vec::new(),
            left: Vec::new(),
            permutations,
        };
        proof {
            broadcast use vstd::seq_lib::group_to_multiset_ensures;
            broadcast use vstd::multiset::group_multiset_axioms;

            assert(smoosh(r.take@) =~= Seq::<bool>::empty());
            assert(forall|x: char| !r.take@.contains(x));
            assert(forall|x: char| r.take@.to_multiset().count(x) == 0);
            assert forall|j1: int, j2: int|
                0 <= j1 < r.permutations@.len() && 0 <= j2 < r.permutations@.len() && j1
                    != j2 implies r.permutations@[j1] != r.permutations@[j2] by {
                if j1 < j2 {
                    assert(r.permutations@[j1]@ != r.permutations@[j2]@);
                } else {
                    assert(r.permutations@[j2]@ != r.permutations@[j1]@);
                }
            }
        }
        r
    }

    /// The pool minus the taken letters, in pool order.
    pub fn get_left(&self, source: &[char], taken: &[char]) -> (r: Vec<char>)
        ensures
            r@ == source@.filter(not_in(taken@)),
    {
        let mut difference: Vec<char> = Vec::new();
        let mut i: usize = 0;
        while i < source.len()
            invariant
                i <= source@.len(),
                difference@ == source@.take(i as int).filter(not_in(taken@)),
            decreases source@.len() - i,
        {
            let c = source[i];
            let present = slice_contains(taken, c);
            proof {
                reveal(Seq::filter);
                assert(source@.take(i as int + 1) =~= source@.take(i as int).push(
                    source@[i as int],
                ));
                assert(source@.take(i as int + 1).drop_last() =~= source@.take(i as int));
                assert(source@.take(i as int + 1).last() == source@[i as int]);
            }
            if !present {
                difference.push(c);
            }
            i = i + 1;
        }
        proof {
            assert(source@.take(source@.len() as int) =~= source@);
        }
        difference
    }

    /// Pops the next untried permutation into `take`, recomputes its bit
    /// pattern and the leftover pool; an empty `take` signals exhaustion.
    pub fn new_perm(&mut self) -> (r: Result<(), ValidationError>)
        requires
            frame_inv(*old(self)),
        ensures
            r is Ok,
            frame_inv(*final(self)),
            final(self).source@ == old(self).source@,
            final(self).perm_size == old(self).perm_size,
            old(self).permutations@.len() == 0 ==> final(self).take@.len() == 0
                && final(self).permutations@.len() == 0 && final(self).left@
                == old(self).source@,
            old(self).permutations@.len() != 0 ==> final(self).permutations@
                == old(self).permutations@.drop_last() && final(self).take@
                == old(self).permutations@.last()@,
    {
        proof {
            broadcast use vstd::seq_lib::group_to_multiset_ensures;
            broadcast use vstd::multiset::group_multiset_axioms;
        }
        self.take = match self.permutations.pop() {
            Some(p) => p,
            None => Vec::new(),
        };
        proof {
            assert(forall|x: char| Seq::<char>::empty().to_multiset().count(x) == 0);
            lemma_sub_multiset_letters(self.take@, self.source@);
            lemma_sub_multiset_no_duplicates(self.take@, self.source@);
        }
        self.merse_take = match chars_to_smooshedmerse(self.take.as_slice()) {
            Ok(v) => v,
            Err(_) => {
                proof {
                    assert(false);
                }
                Vec::new()
            },
        };
        let left = self.get_left(self.source.as_slice(), self.take.as_slice());
        self.left = left;
        proof {
            if self.take@.len() != 0 {
                lemma_get_left_multiset(self.source@, self.take@);
            } else {
                assert(self.take@ =~= Seq::<char>::empty());
                lemma_filter_not_in_empty(self.source@);
            }
        }
        Ok(())
    }
}

} // verus!
