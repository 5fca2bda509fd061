//! The segmented backtracking search: given the smooshed Morse encoding of
//! an alphabet permutation, find some permutation of the 26 letters whose
//! concatenated patterns reproduce the given bit-stream exactly.

use vstd::prelude::*;

use crate::frame::{
    chunk_of, frame_inv, in_worklist, lemma_sub_multiset_letters, lemma_sub_multiset_no_duplicates,
    slice_to_vec, worklist_exhaustive, SegmentChars,
};
use crate::morse::{
    alphabet, alphabet_chars, chars_to_smooshedmerse, chars_to_string, is_alphabet_letter,
    is_morse_symbol, lemma_alphabet_well_formed, lemma_smoosh_concat, lemma_smoosh_len_multiset,
    merse_of, smoosh, smooshedmorse_to_merse, validate_morse_str, ValidationError,
};
use rand::seq::SliceRandom;

verus! {

/// The per-step branching limit: how many letters one frame commits at once.
pub const INCREMENT: u8 = 4;

/// The frames' committed patterns, laid end to end from `offset`, each one
/// matching the corresponding slice of the input exactly. A pattern that
/// would run past the end of the input is a mismatch, never a vacuous match.
pub open spec fn frames_match_from(input: Seq<bool>, frames: Seq<SegmentChars>, offset: int) -> bool
    decreases frames.len(),
{
    if frames.len() == 0 {
        true
    } else {
        let pat = frames[0].merse_take@;
        offset + pat.len() <= input.len() && input.subrange(offset, offset + pat.len() as int)
            == pat && frames_match_from(input, frames.drop_first(), offset + pat.len() as int)
    }
}

pub open spec fn frames_match(input: Seq<bool>, frames: Seq<SegmentChars>) -> bool {
    frames_match_from(input, frames, 0)
}

/// The committed letters of all frames, in level order.
pub open spec fn takes_concat(frames: Seq<SegmentChars>) -> Seq<char>
    decreases frames.len(),
{
    if frames.len() == 0 {
        Seq::empty()
    } else {
        frames[0].take@ + takes_concat(frames.drop_first())
    }
}

pub proof fn lemma_takes_concat_push(frames: Seq<SegmentChars>, fr: SegmentChars)
    ensures
        takes_concat(frames.push(fr)) == takes_concat(frames) + fr.take@,
    decreases frames.len(),
{
    if frames.len() == 0 {
        assert(frames.push(fr).drop_first() =~= Seq::<SegmentChars>::empty());
        assert(frames.push(fr)[0] == fr);
        assert(takes_concat(frames.push(fr)) == fr.take@ + takes_concat(
            Seq::<SegmentChars>::empty(),
        ));
        assert(fr.take@ + Seq::<char>::empty() =~= fr.take@);
        assert(Seq::<char>::empty() + fr.take@ =~= fr.take@);
    } else {
        lemma_takes_concat_push(frames.drop_first(), fr);
        assert(frames.push(fr).drop_first() =~= frames.drop_first().push(fr));
        assert(frames.push(fr)[0] == frames[0]);
        assert(takes_concat(frames.push(fr)) == frames[0].take@ + takes_concat(
            frames.drop_first().push(fr),
        ));
        assert(takes_concat(frames) == frames[0].take@ + takes_concat(frames.drop_first()));
        assert(frames[0].take@ + (takes_concat(frames.drop_first()) + fr.take@) =~= (frames[0].take@
            + takes_concat(frames.drop_first())) + fr.take@);
    }
}

/// A matched stack's committed letters encode exactly the slice of the
/// input that the stack's patterns cover.
pub proof fn lemma_match_smoosh(input: Seq<bool>, frames: Seq<SegmentChars>, offset: int)
    requires
        0 <= offset <= input.len(),
        frames_match_from(input, frames, offset),
        forall|j: int|
            0 <= j < frames.len() ==> (#[trigger] frames[j]).merse_take@ == smoosh(
                frames[j].take@,
            ),
    ensures
        offset + smoosh(takes_concat(frames)).len() <= input.len(),
        smoosh(takes_concat(frames)) == input.subrange(
            offset,
            offset + smoosh(takes_concat(frames)).len() as int,
        ),
    decreases frames.len(),
{
    if frames.len() == 0 {
        assert(smoosh(takes_concat(frames)) =~= Seq::<bool>::empty());
        assert(input.subrange(offset, offset) =~= Seq::<bool>::empty());
    } else {
        let f = frames[0];
        let pat = f.merse_take@;
        let rest = frames.drop_first();
        assert(forall|j: int|
            0 <= j < rest.len() ==> (#[trigger] rest[j]).merse_take@ == smoosh(rest[j].take@))
            by {
            assert(forall|j: int| 0 <= j < rest.len() ==> rest[j] == frames[j + 1]);
        }
        lemma_match_smoosh(input, rest, offset + pat.len() as int);
        lemma_smoosh_concat(f.take@, takes_concat(rest));
        assert(takes_concat(frames) == f.take@ + takes_concat(rest));
        let l0 = pat.len() as int;
        let l1 = smoosh(takes_concat(rest)).len() as int;
        assert(smoosh(takes_concat(frames)).len() == l0 + l1);
        assert(input.subrange(offset, offset + l0 + l1) =~= input.subrange(offset, offset + l0)
            + input.subrange(offset + l0, offset + l0 + l1));
        assert(smoosh(takes_concat(frames)) =~= pat + smoosh(takes_concat(rest)));
    }
}

/// The total number of input bits that the frames' committed patterns cover.
pub open spec fn pats_len(frames: Seq<SegmentChars>) -> int
    decreases frames.len(),
{
    if frames.len() == 0 {
        0
    } else {
        frames[0].merse_take@.len() + pats_len(frames.drop_first())
    }
}

pub proof fn lemma_pats_len_nonneg(frames: Seq<SegmentChars>)
    ensures
        0 <= pats_len(frames),
    decreases frames.len(),
{
    if frames.len() != 0 {
        lemma_pats_len_nonneg(frames.drop_first());
    }
}

pub proof fn lemma_pats_len_push(frames: Seq<SegmentChars>, fr: SegmentChars)
    ensures
        pats_len(frames.push(fr)) == pats_len(frames) + fr.merse_take@.len(),
    decreases frames.len(),
{
    if frames.len() == 0 {
        assert(frames.push(fr).drop_first() =~= Seq::<SegmentChars>::empty());
        assert(frames.push(fr)[0] == fr);
        assert(pats_len(frames.push(fr)) == fr.merse_take@.len() + pats_len(
            Seq::<SegmentChars>::empty(),
        ));
    } else {
        lemma_pats_len_push(frames.drop_first(), fr);
        assert(frames.push(fr).drop_first() =~= frames.drop_first().push(fr));
        assert(frames.push(fr)[0] == frames[0]);
        assert(pats_len(frames.push(fr)) == frames[0].merse_take@.len() + pats_len(
            frames.drop_first().push(fr),
        ));
        assert(pats_len(frames) == frames[0].merse_take@.len() + pats_len(frames.drop_first()));
    }
}

/// Pushing one more frame matches the input exactly when the stack does
/// and the new frame's pattern matches the next slice of the input.
pub proof fn lemma_frames_match_push(
    input: Seq<bool>,
    frames: Seq<SegmentChars>,
    fr: SegmentChars,
    offset: int,
)
    ensures
        frames_match_from(input, frames.push(fr), offset) <==> (frames_match_from(
            input,
            frames,
            offset,
        ) && offset + pats_len(frames) + fr.merse_take@.len() <= input.len() && input.subrange(
            offset + pats_len(frames),
            offset + pats_len(frames) + fr.merse_take@.len() as int,
        ) == fr.merse_take@),
    decreases frames.len(),
{
    if frames.len() == 0 {
        assert(frames.push(fr).drop_first() =~= Seq::<SegmentChars>::empty());
        assert(frames.push(fr)[0] == fr);
        assert(frames_match_from(
            input,
            Seq::<SegmentChars>::empty(),
            offset + fr.merse_take@.len() as int,
        ));
    } else {
        lemma_frames_match_push(
            input,
            frames.drop_first(),
            fr,
            offset + frames[0].merse_take@.len() as int,
        );
        assert(frames.push(fr).drop_first() =~= frames.drop_first().push(fr));
        assert(frames.push(fr)[0] == frames[0]);
        assert(pats_len(frames) == frames[0].merse_take@.len() + pats_len(frames.drop_first()));
    }
}

/// Splitting a sequence's multiset at a cut point.
pub proof fn lemma_split_multiset(w: Seq<char>, c: int)
    requires
        0 <= c <= w.len(),
    ensures
        w.take(c).to_multiset().add(w.skip(c).to_multiset()) == w.to_multiset(),
{
    assert(w =~= w.take(c) + w.skip(c));
    vstd::seq_lib::lemma_multiset_commutative(w.take(c), w.skip(c));
}

/// A matching slice of the input splits as its two parts do.
pub proof fn lemma_subrange_split(input: Seq<bool>, offset: int, x: Seq<bool>, y: Seq<bool>)
    requires
        0 <= offset,
        offset + x.len() + y.len() <= input.len(),
        input.subrange(offset, offset + x.len() + y.len()) == x + y,
    ensures
        input.subrange(offset, offset + x.len() as int) == x,
        input.subrange(offset + x.len(), offset + x.len() + y.len()) == y,
{
    let whole = input.subrange(offset, offset + x.len() + y.len());
    assert forall|t: int| 0 <= t < x.len() implies input.subrange(
        offset,
        offset + x.len() as int,
    )[t] == x[t] by {
        assert(whole[t] == (x + y)[t]);
    }
    assert(input.subrange(offset, offset + x.len() as int) =~= x);
    assert forall|t: int| 0 <= t < y.len() implies input.subrange(
        offset + x.len(),
        offset + x.len() + y.len(),
    )[t] == y[t] by {
        assert(whole[x.len() + t] == (x + y)[x.len() + t]);
    }
    assert(input.subrange(offset + x.len(), offset + x.len() + y.len()) =~= y);
}

/// An ordering of the pool's letters whose smooshed encoding continues
/// the already-matched part of the input at the given offset.
pub open spec fn extends_to_solution(
    input: Seq<bool>,
    offset: int,
    pool: Seq<char>,
    w: Seq<char>,
) -> bool {
    &&& w.to_multiset() == pool.to_multiset()
    &&& offset + smoosh(w).len() <= input.len()
    &&& input.subrange(offset, offset + smoosh(w).len() as int) == smoosh(w)
}

/// Some ordering of the pool's letters continues the match.
pub open spec fn solvable(input: Seq<bool>, offset: int, pool: Seq<char>) -> bool {
    exists|w: Seq<char>| extends_to_solution(input, offset, pool, w)
}

/// What the completeness guarantee asks of a level: the stack below the
/// top frame is matched, the top frame is fresh over a non-empty pool
/// with its full worklist, the branching limit is at least one, and some
/// ordering of the pool continues the match.
pub open spec fn completeness_pre(
    input: Seq<bool>,
    increment: int,
    stack: Seq<SegmentChars>,
    i: int,
) -> bool {
    &&& frames_match(input, stack.drop_last())
    &&& 1 <= increment
    &&& stack[i].source@.len() > 0
    &&& stack[i].perm_size as int == chunk_of(increment, stack[i].source@.len() as int)
    &&& worklist_exhaustive(stack[i])
    &&& solvable(input, pats_len(stack.drop_last()), stack[i].source@)
}

fn bits_match_at(input: &[bool], offset: usize, pat: &Vec<bool>) -> (r: bool)
    requires
        offset + pat@.len() <= input@.len(),
    ensures
        r == (input@.subrange(offset as int, offset as int + pat@.len() as int) == pat@),
{
    let ilen = input.len();
    let n = pat.len();
    let mut j: usize = 0;
    while j < n
        invariant
            ilen == input@.len(),
            n == pat@.len(),
            offset + n <= input@.len(),
            j <= n,
            forall|t: int| 0 <= t < j ==> input@[offset + t] == pat@[t],
        decreases n - j,
    {
        if input[offset + j] != pat[j] {
            proof {
                let sub = input@.subrange(offset as int, offset as int + pat@.len() as int);
                assert(sub[j as int] == input@[offset + j as int]);
            }
            return false;
        }
        j = j + 1;
    }
    proof {
        assert(input@.subrange(offset as int, offset as int + pat@.len() as int) =~= pat@);
    }
    true
}

/// True exactly when all the frames' committed patterns match the input in
/// level order, each against the slice that starts where the previous one
/// ended.
pub fn check_for_match(input: &[bool], segchs: &Vec<SegmentChars>) -> (r: bool)
    ensures
        r == frames_match(input@, segchs@),
{
    let mut i: usize = 0;
    let mut n: usize = 0;
    proof {
        assert(segchs@.skip(0) =~= segchs@);
    }
    while n < segchs.len()
        invariant
            n <= segchs@.len(),
            i <= input@.len(),
            frames_match(input@, segchs@) == frames_match_from(
                input@,
                segchs@.skip(n as int),
                i as int,
            ),
        decreases segchs@.len() - n,
    {
        let pat_len = segchs[n].merse_take.len();
        proof {
            assert(segchs@.skip(n as int)[0] == segchs@[n as int]);
            assert(segchs@.skip(n as int).drop_first() =~= segchs@.skip(n as int + 1));
        }
        if input.len() - i < pat_len {
            return false;
        }
        if !bits_match_at(input, i, &segchs[n].merse_take) {
            return false;
        }
        i = i + pat_len;
        n = n + 1;
    }
    proof {
        assert(segchs@.skip(segchs@.len() as int) =~= Seq::<SegmentChars>::empty());
    }
    true
}

/// The committed letters of all frames on the stack, root to leaf, as text.
pub fn get_taken(segchs: &Vec<SegmentChars>) -> (r: String)
    ensures
        r@ == takes_concat(segchs@),
{
    let mut r = String::new();
    let mut i: usize = 0;
    while i < segchs.len()
        invariant
            i <= segchs@.len(),
            r@ == takes_concat(segchs@.take(i as int)),
        decreases segchs@.len() - i,
    {
        let part = chars_to_string(segchs[i].take.as_slice());
        r.append(part.as_str());
        proof {
            assert(segchs@.take(i as int + 1) =~= segchs@.take(i as int).push(segchs@[i as int]));
            lemma_takes_concat_push(segchs@.take(i as int), segchs@[i as int]);
        }
        i = i + 1;
    }
    proof {
        assert(segchs@.take(segchs@.len() as int) =~= segchs@);
    }
    r
}

/// Relies on `rand::seq::SliceRandom::shuffle`: shuffling reorders the
/// elements in place, neither adding nor removing any.
#[verifier::external_body]
fn shuffle_chars(v: &mut Vec<char>)
    ensures
        final(v)@.to_multiset() == old(v)@.to_multiset(),
{
    let mut rng = rand::thread_rng();
    v.shuffle(&mut rng);
}

/// A uniformly random ordering of the 26 letters.
pub fn random_alphabet() -> (r: Vec<char>)
    ensures
        r@.to_multiset() == alphabet().to_multiset(),
        r@.no_duplicates(),
        forall|k: int| 0 <= k < r@.len() ==> is_alphabet_letter(#[trigger] r@[k]),
{
    let mut alpha = alphabet_chars();
    shuffle_chars(&mut alpha);
    proof {
        lemma_alphabet_well_formed();
        lemma_sub_multiset_no_duplicates(alpha@, alphabet());
        lemma_sub_multiset_letters(alpha@, alphabet());
    }
    alpha
}

/// The required length of a smooshed alphabet permutation: the length of
/// the canonical alphabet's smooshed encoding.
pub fn smalpha_right_len() -> (r: usize)
    ensures
        r == smoosh(alphabet()).len(),
{
    let alpha = alphabet_chars();
    proof {
        lemma_alphabet_well_formed();
    }
    match chars_to_smooshedmerse(alpha.as_slice()) {
        Ok(v) => v.len(),
        Err(_) => {
            proof {
                assert(false);
            }
            0
        },
    }
}

/// Rejects input that is not made of dots and dashes, or whose length is
/// not that of a smooshed alphabet permutation.
pub fn validate_smalpha(smalpha: &str) -> (r: Result<(), ValidationError>)
    ensures
        r is Ok <==> ((forall|k: int|
            0 <= k < smalpha@.len() ==> is_morse_symbol(#[trigger] smalpha@[k])) && smalpha@.len()
            == smoosh(alphabet()).len()),
        (exists|k: int| 0 <= k < smalpha@.len() && !is_morse_symbol(#[trigger] smalpha@[k]))
            ==> r == Err::<(), ValidationError>(ValidationError::InvalidCharacter),
        ((forall|k: int| 0 <= k < smalpha@.len() ==> is_morse_symbol(#[trigger] smalpha@[k]))
            && smalpha@.len() != smoosh(alphabet()).len()) ==> r == Err::<(), ValidationError>(
            ValidationError::WrongLength,
        ),
{
    match validate_morse_str(smalpha) {
        Err(e) => {
            return Err(e);
        },
        Ok(()) => {},
    }
    if smalpha.unicode_len() != smalpha_right_len() {
        return Err(ValidationError::WrongLength);
    }
    Ok(())
}

/// One level of the depth-first search. The top frame tries its untried
/// permutations one at a time; on a validated match it either reports the
/// discovered permutation (leftover pool empty) or descends into a child
/// frame over the leftover pool; on exhaustion it destroys itself and
/// reports failure upward, which is backtracking.
pub fn algo(
    input: &[bool],
    increment: usize,
    i: usize,
    segchs: &mut Vec<SegmentChars>,
) -> (r: Option<Vec<Vec<char>>>)
    requires
        i as int + 1 == old(segchs)@.len(),
        forall|j: int| 0 <= j <= i ==> frame_inv(#[trigger] old(segchs)@[j]),
        forall|j: int| 0 <= j < i ==> (#[trigger] old(segchs)@[j]).take@.len() != 0,
    ensures
        r is None ==> final(segchs)@ == old(segchs)@.drop_last(),
        r matches Some(v) ==> ({
            &&& v@.len() == 1
            &&& v@[0]@.to_multiset() == takes_concat(old(segchs)@.drop_last()).to_multiset().add(
                old(segchs)@[i as int].source@.to_multiset(),
            )
            &&& smoosh(v@[0]@).len() <= input@.len()
            &&& smoosh(v@[0]@) == input@.subrange(0, smoosh(v@[0]@).len() as int)
        }),
        completeness_pre(input@, increment as int, old(segchs)@, i as int) ==> r is Some,
    decreases old(segchs)@[i as int].source@.len(),
{
    let ghost orig = old(segchs)@;
    let _depth = segchs.len();
    let mut fr = segchs.pop().unwrap();
    proof {
        assert(segchs@ =~= orig.drop_last());
        assert(fr == orig[i as int]);
        if completeness_pre(input@, increment as int, orig, i as int) {
            broadcast use vstd::seq_lib::group_to_multiset_ensures;
            broadcast use vstd::multiset::group_multiset_axioms;

            let pool = orig[i as int].source@;
            let w = choose|w: Seq<char>|
                extends_to_solution(input@, pats_len(orig.drop_last()), pool, w);
            let c = orig[i as int].perm_size as int;
            assert(w.to_multiset().len() == pool.to_multiset().len());
            assert(w.len() == pool.len());
            assert(0 <= c <= w.len());
            lemma_split_multiset(w, c);
            assert(forall|x: char|
                w.take(c).to_multiset().count(x) <= #[trigger] w.to_multiset().count(x));
            assert(w.take(c).to_multiset().subset_of(pool.to_multiset()));
            assert(w.take(c).len() == c);
            assert(in_worklist(fr.permutations@, w.take(c)));
            assert(extends_to_solution(input@, pats_len(orig.drop_last()), fr.source@, w)
                && in_worklist(fr.permutations@, w.take(fr.perm_size as int)));
        }
    }
    loop
        invariant
            orig == old(segchs)@,
            i as int + 1 == orig.len(),
            orig.len() <= usize::MAX,
            segchs@ == orig.drop_last(),
            frame_inv(fr),
            fr.source@ == orig[i as int].source@,
            fr.perm_size == orig[i as int].perm_size,
            forall|j: int| 0 <= j <= i ==> frame_inv(#[trigger] orig[j]),
            forall|j: int| 0 <= j < i ==> (#[trigger] orig[j]).take@.len() != 0,
            completeness_pre(input@, increment as int, orig, i as int) ==> (exists|w: Seq<char>|
                extends_to_solution(input@, pats_len(orig.drop_last()), fr.source@, w)
                    && in_worklist(fr.permutations@, w.take(fr.perm_size as int))),
        decreases fr.permutations@.len(),
    {
        let ghost fr_head = fr;
        let ghost worklist_before = fr.permutations@;
        let _ok = fr.new_perm();
        if fr.take.len() == 0 {
            proof {
                if completeness_pre(input@, increment as int, orig, i as int) {
                    let w = choose|w: Seq<char>|
                        extends_to_solution(input@, pats_len(orig.drop_last()), fr_head.source@, w)
                            && in_worklist(
                            fr_head.permutations@,
                            w.take(fr_head.perm_size as int),
                        );
                    let j = choose|j: int|
                        0 <= j < fr_head.permutations@.len() && fr_head.permutations@[j]@ == w.take(
                            fr_head.perm_size as int,
                        );
                    assert(fr_head.permutations@.len() > 0);
                    assert(fr.take@ == fr_head.permutations@.last()@);
                    assert(fr.take@.len() == fr_head.perm_size);
                    assert(fr_head.perm_size as int == chunk_of(
                        increment as int,
                        fr_head.source@.len() as int,
                    ));
                    assert(false);
                }
            }
            return None;
        }
        proof {
            assert(worklist_before.len() != 0);
            assert(fr.permutations@.len() < worklist_before.len());
        }
        segchs.push(fr);
        let matched = check_for_match(input, segchs);
        if matched {
            fr = segchs.pop().unwrap();
            proof {
                assert(segchs@ =~= orig.drop_last());
            }
            if fr.left.len() == 0 {
                segchs.push(fr);
                let ghost full = segchs@;
                let mut char_combi: Vec<char> = Vec::new();
                let mut ii: usize = 0;
                proof {
                    assert(full.take(0) =~= Seq::<SegmentChars>::empty());
                }
                while ii < segchs.len()
                    invariant
                        segchs@ == full,
                        ii <= full.len(),
                        char_combi@ == takes_concat(full.take(ii as int)),
                    decreases full.len() - ii,
                {
                    let mut part = slice_to_vec(segchs[ii].take.as_slice());
                    char_combi.append(&mut part);
                    proof {
                        assert(full.take(ii as int + 1) =~= full.take(ii as int).push(
                            full[ii as int],
                        ));
                        lemma_takes_concat_push(full.take(ii as int), full[ii as int]);
                    }
                    ii = ii + 1;
                }
                proof {
                    broadcast use vstd::seq_lib::group_to_multiset_ensures;
                    broadcast use vstd::multiset::group_multiset_axioms;

                    assert(full.take(full.len() as int) =~= full);
                    assert(full =~= orig.drop_last().push(fr));
                    lemma_takes_concat_push(orig.drop_last(), fr);
                    vstd::seq_lib::lemma_multiset_commutative(
                        takes_concat(orig.drop_last()),
                        fr.take@,
                    );
                    assert(fr.left@ =~= Seq::<char>::empty());
                    assert(forall|x: char| fr.left@.to_multiset().count(x) == 0);
                    assert(fr.left@.to_multiset().add(fr.take@.to_multiset())
                        == fr.source@.to_multiset());
                    assert(fr.take@.to_multiset() =~= fr.source@.to_multiset());
                    assert(char_combi@.to_multiset() =~= takes_concat(
                        orig.drop_last(),
                    ).to_multiset().add(orig[i as int].source@.to_multiset()));
                    assert(forall|j: int|
                        0 <= j < full.len() ==> (#[trigger] full[j]).merse_take@ == smoosh(
                            full[j].take@,
                        ));
                    lemma_match_smoosh(input@, full, 0);
                }
                let mut result: Vec<Vec<char>> = Vec::new();
                result.push(char_combi);
                return Some(result);
            }
            proof {
                broadcast use vstd::seq_lib::group_to_multiset_ensures;
                broadcast use vstd::multiset::group_multiset_axioms;

                assert(fr.take@.len() != 0);
                assert(fr.left@.to_multiset().add(fr.take@.to_multiset())
                    == fr.source@.to_multiset());
                assert(fr.left@.to_multiset().subset_of(fr.source@.to_multiset()));
                lemma_sub_multiset_no_duplicates(fr.left@, fr.source@);
                lemma_sub_multiset_letters(fr.left@, fr.source@);
                assert(fr.take@.to_multiset().len() > 0) by {
                    assert(fr.take@.contains(fr.take@[0]));
                    assert(fr.take@.to_multiset().count(fr.take@[0]) > 0);
                }
                assert(fr.left@.to_multiset().add(fr.take@.to_multiset()).len()
                    == fr.left@.to_multiset().len() + fr.take@.to_multiset().len());
                assert(fr.left@.len() == fr.left@.to_multiset().len());
                assert(fr.take@.len() == fr.take@.to_multiset().len());
                assert(fr.source@.len() == fr.source@.to_multiset().len());
                assert(fr.left@.len() < fr.source@.len());
            }
            let segch_new = SegmentChars::init(fr.left.as_slice(), increment);
            let ghost child = segch_new;
            segchs.push(fr);
            segchs.push(segch_new);
            let ghost stack2 = segchs@;
            let step = algo(input, increment, i + 1, segchs);
            match step {
                Some(res) => {
                    proof {
                        broadcast use vstd::seq_lib::group_to_multiset_ensures;
                        broadcast use vstd::multiset::group_multiset_axioms;

                        assert(stack2.drop_last() =~= orig.drop_last().push(fr));
                        assert(stack2[i as int + 1] == child);
                        lemma_takes_concat_push(orig.drop_last(), fr);
                        vstd::seq_lib::lemma_multiset_commutative(
                            takes_concat(orig.drop_last()),
                            fr.take@,
                        );
                        assert(child.source@ == fr.left@);
                        assert(res@[0]@.to_multiset() =~= takes_concat(
                            orig.drop_last(),
                        ).to_multiset().add(orig[i as int].source@.to_multiset()));
                    }
                    return Some(res);
                },
                None => {
                    fr = segchs.pop().unwrap();
                    proof {
                        assert(stack2.drop_last() =~= orig.drop_last().push(fr));
                        assert(segchs@ =~= orig.drop_last());
                        if completeness_pre(input@, increment as int, orig, i as int) {
                            broadcast use vstd::seq_lib::group_to_multiset_ensures;
                            broadcast use vstd::multiset::group_multiset_axioms;

                            let off0 = pats_len(orig.drop_last());
                            let c = fr.perm_size as int;
                            let w = choose|w: Seq<char>|
                                extends_to_solution(input@, off0, fr_head.source@, w)
                                    && in_worklist(
                                    fr_head.permutations@,
                                    w.take(fr_head.perm_size as int),
                                );
                            lemma_pats_len_nonneg(orig.drop_last());
                            assert(w.to_multiset().len() == fr.source@.to_multiset().len());
                            assert(w.len() == fr.source@.len());
                            assert(0 <= c <= w.len());
                            if fr.take@ == w.take(c) {
                                assert(w =~= w.take(c) + w.skip(c));
                                lemma_smoosh_concat(w.take(c), w.skip(c));
                                lemma_subrange_split(
                                    input@,
                                    off0,
                                    smoosh(w.take(c)),
                                    smoosh(w.skip(c)),
                                );
                                lemma_pats_len_push(orig.drop_last(), fr);
                                lemma_split_multiset(w, c);
                                assert(fr.left@.to_multiset().add(fr.take@.to_multiset())
                                    == fr.source@.to_multiset());
                                assert(forall|x: char|
                                    w.skip(c).to_multiset().count(x)
                                        == fr.left@.to_multiset().count(x));
                                assert(w.skip(c).to_multiset() =~= fr.left@.to_multiset());
                                assert(child.source@ == fr.left@);
                                assert(pats_len(stack2.drop_last()) == off0
                                    + fr.merse_take@.len());
                                assert(fr.merse_take@ == smoosh(w.take(c)));
                                assert(extends_to_solution(
                                    input@,
                                    pats_len(stack2.drop_last()),
                                    child.source@,
                                    w.skip(c),
                                ));
                                assert(solvable(
                                    input@,
                                    pats_len(stack2.drop_last()),
                                    child.source@,
                                ));
                                assert(stack2[i as int + 1] == child);
                                assert(frames_match(input@, stack2.drop_last()));
                                assert(child.source@.len() > 0);
                                assert(completeness_pre(
                                    input@,
                                    increment as int,
                                    stack2,
                                    i as int + 1,
                                ));
                                assert(false);
                            }
                            assert(fr_head.permutations@.len() > 0);
                            assert(fr.take@ == fr_head.permutations@.last()@);
                            assert(fr.permutations@ == fr_head.permutations@.drop_last());
                            let j = choose|j: int|
                                0 <= j < fr_head.permutations@.len()
                                    && fr_head.permutations@[j]@ == w.take(
                                    fr_head.perm_size as int,
                                );
                            assert(j < fr_head.permutations@.len() - 1);
                            assert(fr.permutations@[j]@ == w.take(c));
                            assert(in_worklist(fr.permutations@, w.take(fr.perm_size as int)));
                            assert(extends_to_solution(
                                input@,
                                pats_len(orig.drop_last()),
                                fr.source@,
                                w,
                            ));
                        }
                    }
                },
            }
        } else {
            fr = segchs.pop().unwrap();
            proof {
                assert(segchs@ =~= orig.drop_last());
                if completeness_pre(input@, increment as int, orig, i as int) {
                    broadcast use vstd::seq_lib::group_to_multiset_ensures;
                    broadcast use vstd::multiset::group_multiset_axioms;

                    let off0 = pats_len(orig.drop_last());
                    let c = fr.perm_size as int;
                    let w = choose|w: Seq<char>|
                        extends_to_solution(input@, off0, fr_head.source@, w) && in_worklist(
                            fr_head.permutations@,
                            w.take(fr_head.perm_size as int),
                        );
                    lemma_pats_len_nonneg(orig.drop_last());
                    assert(w.to_multiset().len() == fr.source@.to_multiset().len());
                    assert(w.len() == fr.source@.len());
                    assert(0 <= c <= w.len());
                    if fr.take@ == w.take(c) {
                        assert(w =~= w.take(c) + w.skip(c));
                        lemma_smoosh_concat(w.take(c), w.skip(c));
                        lemma_subrange_split(input@, off0, smoosh(w.take(c)), smoosh(w.skip(c)));
                        lemma_frames_match_push(input@, orig.drop_last(), fr, 0);
                        assert(fr.merse_take@ == smoosh(fr.take@));
                        assert(frames_match(input@, orig.drop_last()));
                        assert(frames_match_from(input@, orig.drop_last().push(fr), 0));
                        assert(false);
                    }
                    assert(fr_head.permutations@.len() > 0);
                    assert(fr.take@ == fr_head.permutations@.last()@);
                    assert(fr.permutations@ == fr_head.permutations@.drop_last());
                    let j = choose|j: int|
                        0 <= j < fr_head.permutations@.len() && fr_head.permutations@[j]@ == w.take(
                            fr_head.perm_size as int,
                        );
                    assert(j < fr_head.permutations@.len() - 1);
                    assert(fr.permutations@[j]@ == w.take(c));
                    assert(in_worklist(fr.permutations@, w.take(fr.perm_size as int)));
                    assert(extends_to_solution(input@, pats_len(orig.drop_last()), fr.source@, w));
                }
            }
        }
    }
}

/// Searches from a caller-supplied ordering of the pool. The ordering
/// injects the search order only, never correctness: the single returned
/// entry is some arrangement of the pool's letters whose smooshed
/// encoding reproduces the given bit-stream, or empty on total failure.
pub fn find_permutations_from(
    root_order: &[char],
    merse_alpha_perm: &[bool],
    increment: u8,
) -> (r: Vec<Vec<char>>)
    requires
        root_order@.no_duplicates(),
        forall|k: int| 0 <= k < root_order@.len() ==> is_alphabet_letter(#[trigger] root_order@[k]),
    ensures
        r@.len() == 1,
        r@[0]@.len() != 0 ==> ({
            &&& r@[0]@.to_multiset() == root_order@.to_multiset()
            &&& smoosh(r@[0]@).len() == smoosh(root_order@).len()
            &&& smoosh(r@[0]@).len() <= merse_alpha_perm@.len()
            &&& smoosh(r@[0]@) == merse_alpha_perm@.subrange(0, smoosh(r@[0]@).len() as int)
        }),
        (1 <= increment && root_order@.len() > 0 && (exists|w: Seq<char>|
            w.to_multiset() == root_order@.to_multiset() && smoosh(w) == merse_alpha_perm@))
            ==> r@[0]@.len() != 0,
{
    let increment_size: usize = increment as usize;
    let mut segchs: Vec<SegmentChars> = Vec::new();
    let segch0 = SegmentChars::init(root_order, increment_size);
    let ghost root = segch0;
    segchs.push(segch0);
    proof {
        assert(segchs@ =~= Seq::<SegmentChars>::empty().push(root));
        assert(segchs@[0] == root);
        assert(segchs@.drop_last() =~= Seq::<SegmentChars>::empty());
    }
    let ghost stack0 = segchs@;
    let res = algo(merse_alpha_perm, increment_size, 0, &mut segchs);
    proof {
        if 1 <= increment && root_order@.len() > 0 && (exists|w: Seq<char>|
            w.to_multiset() == root_order@.to_multiset() && smoosh(w) == merse_alpha_perm@) {
            broadcast use vstd::seq_lib::group_to_multiset_ensures;
            broadcast use vstd::multiset::group_multiset_axioms;

            let w = choose|w: Seq<char>|
                w.to_multiset() == root_order@.to_multiset() && smoosh(w) == merse_alpha_perm@;
            assert(stack0.drop_last() =~= Seq::<SegmentChars>::empty());
            assert(frames_match(merse_alpha_perm@, stack0.drop_last()));
            assert(pats_len(stack0.drop_last()) == 0);
            assert(w.to_multiset() == stack0[0].source@.to_multiset());
            assert(merse_alpha_perm@.subrange(0, smoosh(w).len() as int) =~= merse_alpha_perm@);
            assert(extends_to_solution(merse_alpha_perm@, 0, stack0[0].source@, w));
            assert(solvable(merse_alpha_perm@, 0, stack0[0].source@));
            assert(completeness_pre(merse_alpha_perm@, increment_size as int, stack0, 0));
            assert(res is Some);
        }
    }
    match res {
        None => {
            let mut r: Vec<Vec<char>> = Vec::new();
            r.push(Vec::new());
            r
        },
        Some(r) => {
            proof {
                broadcast use vstd::seq_lib::group_to_multiset_ensures;
                broadcast use vstd::multiset::group_multiset_axioms;

                assert(takes_concat(Seq::<SegmentChars>::empty()) == Seq::<char>::empty());
                assert(forall|x: char| Seq::<char>::empty().to_multiset().count(x) == 0);
                assert(r@[0]@.to_multiset() =~= root_order@.to_multiset());
                lemma_smoosh_len_multiset(r@[0]@, root_order@);
            }
            r
        },
    }
}

/// Searches for a permutation of the 26 letters whose smooshed encoding
/// reproduces the given bit-stream, from a randomized root ordering. The
/// single returned entry is the discovered permutation, or empty on total
/// search failure.
pub fn find_permutations(merse_alpha_perm: &[bool], increment: u8) -> (r: Vec<Vec<char>>)
    ensures
        r@.len() == 1,
        r@[0]@.len() != 0 ==> ({
            &&& r@[0]@.to_multiset() == alphabet().to_multiset()
            &&& smoosh(r@[0]@).len() == smoosh(alphabet()).len()
            &&& smoosh(r@[0]@).len() <= merse_alpha_perm@.len()
            &&& smoosh(r@[0]@) == merse_alpha_perm@.subrange(0, smoosh(r@[0]@).len() as int)
        }),
        (1 <= increment && (exists|w: Seq<char>|
            w.to_multiset() == alphabet().to_multiset() && smoosh(w) == merse_alpha_perm@))
            ==> r@[0]@.len() != 0,
{
    let alpha = random_alphabet();
    let r = find_permutations_from(alpha.as_slice(), merse_alpha_perm, increment);
    proof {
        broadcast use vstd::seq_lib::group_to_multiset_ensures;
        broadcast use vstd::multiset::group_multiset_axioms;

        lemma_smoosh_len_multiset(alpha@, alphabet());
        assert(alpha@.to_multiset().len() == alphabet().to_multiset().len());
        assert(alpha@.len() == alphabet().len());
        assert(alphabet().len() == 26);
        if exists|w: Seq<char>|
            w.to_multiset() == alphabet().to_multiset() && smoosh(w) == merse_alpha_perm@ {
            let w = choose|w: Seq<char>|
                w.to_multiset() == alphabet().to_multiset() && smoosh(w) == merse_alpha_perm@;
            assert(w.to_multiset() == alpha@.to_multiset() && smoosh(w) == merse_alpha_perm@);
            assert(exists|w2: Seq<char>|
                w2.to_multiset() == alpha@.to_multiset() && smoosh(w2) == merse_alpha_perm@);
        }
    }
    r
}

/// Finds a permutation of the alphabet whose smooshed Morse encoding is
/// the given stream; with no input, a random self-test target is
/// synthesized first. On success the single returned entry encodes back
/// to the target exactly; on total search failure it is an empty
/// placeholder string.
pub fn run(smooshed_alphabet_permutation: Option<&str>) -> (r: Result<
    Vec<String>,
    ValidationError,
>)
    ensures
        match smooshed_alphabet_permutation {
            Some(s) => ({
                &&& (r is Ok <==> ((forall|k: int|
                    0 <= k < s@.len() ==> is_morse_symbol(#[trigger] s@[k])) && s@.len() == smoosh(
                    alphabet(),
                ).len()))
                &&& ((exists|k: int| 0 <= k < s@.len() && !is_morse_symbol(#[trigger] s@[k])) ==> r
                    == Err::<Vec<String>, ValidationError>(ValidationError::InvalidCharacter))
                &&& (((forall|k: int| 0 <= k < s@.len() ==> is_morse_symbol(#[trigger] s@[k]))
                    && s@.len() != smoosh(alphabet()).len()) ==> r == Err::<
                    Vec<String>,
                    ValidationError,
                >(ValidationError::WrongLength))
                &&& (r matches Ok(v) ==> v@.len() == 1 && (v@[0]@.len() != 0 ==> ({
                    &&& v@[0]@.to_multiset() == alphabet().to_multiset()
                    &&& smoosh(v@[0]@) == merse_of(s@)
                })))
                &&& (r matches Ok(v) ==> ((exists|w: Seq<char>|
                    w.to_multiset() == alphabet().to_multiset() && smoosh(w) == merse_of(s@))
                    ==> v@[0]@.len() != 0))
            }),
            None => ({
                &&& r is Ok
                &&& (r matches Ok(v) ==> v@.len() == 1 && v@[0]@.len() != 0 && v@[0]@.to_multiset()
                    == alphabet().to_multiset())
            }),
        },
{
    let smalpha_bits: Vec<bool>;
    match smooshed_alphabet_permutation {
        Some(smalpha) => {
            match validate_smalpha(smalpha) {
                Err(e) => {
                    return Err(e);
                },
                Ok(()) => {},
            }
            smalpha_bits = match smooshedmorse_to_merse(smalpha) {
                Ok(v) => v,
                Err(e) => {
                    proof {
                        assert(false);
                    }
                    return Err(e);
                },
            };
            proof {
                if exists|w: Seq<char>|
                    w.to_multiset() == alphabet().to_multiset() && smoosh(w) == merse_of(
                        smalpha@,
                    ) {
                    let w = choose|w: Seq<char>|
                        w.to_multiset() == alphabet().to_multiset() && smoosh(w) == merse_of(
                            smalpha@,
                        );
                    assert(smoosh(w) == smalpha_bits@);
                    assert(exists|w2: Seq<char>|
                        w2.to_multiset() == alphabet().to_multiset() && smoosh(w2)
                            == smalpha_bits@);
                }
            }
        },
        None => {
            let alpha = random_alphabet();
            smalpha_bits = match chars_to_smooshedmerse(alpha.as_slice()) {
                Ok(v) => v,
                Err(e) => {
                    proof {
                        assert(false);
                    }
                    return Err(e);
                },
            };
            proof {
                assert(alpha@.to_multiset() == alphabet().to_multiset() && smoosh(alpha@)
                    == smalpha_bits@);
                assert(exists|w: Seq<char>|
                    w.to_multiset() == alphabet().to_multiset() && smoosh(w) == smalpha_bits@);
            }
        },
    }
    let permutations_of_char = find_permutations(smalpha_bits.as_slice(), INCREMENT);
    let mut out: Vec<String> = Vec::new();
    let mut idx: usize = 0;
    while idx < permutations_of_char.len()
        invariant
            idx <= permutations_of_char@.len(),
            out@.len() == idx,
            forall|j: int| 0 <= j < idx ==> (#[trigger] out@[j])@ == permutations_of_char@[j]@,
        decreases permutations_of_char@.len() - idx,
    {
        let s = chars_to_string(permutations_of_char[idx].as_slice());
        out.push(s);
        idx = idx + 1;
    }
    proof {
        assert(smalpha_bits@.subrange(0, smalpha_bits@.len() as int) =~= smalpha_bits@);
        assert(1 <= INCREMENT);
    }
    Ok(out)
}

} // verus!
