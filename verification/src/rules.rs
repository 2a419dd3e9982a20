//! Scoring rules: the value of a single die face and the total of a sequence
//! of faces. Face 3 is the "low roller" inversion: the riskiest face scores
//! zero, every other face scores its own value.

use vstd::prelude::*;

verus! {

/// The projected contribution, in points, of each die that will still be
/// re-rolled later in the turn. A deliberate heuristic approximation used by
/// the bot policies, not an exact expectation over the face distribution;
/// the projection is always rounded to a whole number of points, so it is
/// held as an integer.
pub const REROLL_EV: u32 = 3;

/// The score of a single die face: 3 scores 0, every other face scores
/// its own value.
pub open spec fn spec_face_score(face: u8) -> u8 {
    if face == 3 {
        0
    } else {
        face
    }
}

/// The total score of a sequence of faces.
pub open spec fn spec_sum_score(faces: Seq<u8>) -> int
    decreases faces.len(),
{
    if faces.len() == 0 {
        0
    } else {
        spec_sum_score(faces.drop_last()) + spec_face_score(faces.last())
    }
}

/// Returns the score of one die face: 0 for a 3, the face value otherwise.
pub fn face_score(face: u8) -> (r: u8)
    ensures
        r == spec_face_score(face),
{
    if face == 3 {
        0
    } else {
        face
    }
}

/// Every face scores its own value, except 3, which scores zero.
pub proof fn lemma_face_score_values()
    ensures
        spec_face_score(3) == 0,
        forall|f: u8| 1 <= f <= 6 && f != 3 ==> #[trigger] spec_face_score(f) == f,
{
}

/// The sum of a sequence of faces is never negative.
pub proof fn lemma_sum_score_nonneg(faces: Seq<u8>)
    ensures
        spec_sum_score(faces) >= 0,
    decreases faces.len(),
{
    if faces.len() > 0 {
        lemma_sum_score_nonneg(faces.drop_last());
    }
}

/// Splitting a sequence splits its sum.
pub proof fn lemma_sum_score_split(faces: Seq<u8>, k: int)
    requires
        0 <= k <= faces.len(),
    ensures
        spec_sum_score(faces) == spec_sum_score(faces.subrange(0, k)) + spec_sum_score(
            faces.subrange(k, faces.len() as int),
        ),
    decreases faces.len(),
{
    let n = faces.len() as int;
    if k == n {
        assert(faces.subrange(0, k) =~= faces);
        assert(spec_sum_score(faces.subrange(k, n)) == 0);
    } else {
        let head = faces.drop_last();
        lemma_sum_score_split(head, k);
        assert(head.subrange(0, k) =~= faces.subrange(0, k));
        let tail = faces.subrange(k, n);
        assert(tail.drop_last() =~= head.subrange(k, n - 1));
        assert(tail.last() == faces.last());
        assert(spec_sum_score(tail) == spec_sum_score(tail.drop_last()) + spec_face_score(
            tail.last(),
        ));
    }
}

/// Concatenating two sequences adds their sums.
pub proof fn lemma_sum_score_concat(a: Seq<u8>, b: Seq<u8>)
    ensures
        spec_sum_score(a + b) == spec_sum_score(a) + spec_sum_score(b),
{
    lemma_sum_score_split(a + b, a.len() as int);
    assert((a + b).subrange(0, a.len() as int) =~= a);
    assert((a + b).subrange(a.len() as int, (a + b).len() as int) =~= b);
}

/// Returns the total score of a slice of faces.
pub fn sum_score(faces: &[u8]) -> (r: u32)
    requires
        spec_sum_score(faces@) <= u32::MAX,
    ensures
        r == spec_sum_score(faces@),
{
    let mut acc: u32 = 0;
    let mut i: usize = 0;
    while i < faces.len()
        invariant
            0 <= i <= faces@.len(),
            acc == spec_sum_score(faces@.subrange(0, i as int)),
            spec_sum_score(faces@) <= u32::MAX,
        decreases faces@.len() - i,
    {
        proof {
            lemma_sum_score_split(faces@, i + 1);
            lemma_sum_score_nonneg(faces@.subrange(i + 1, faces@.len() as int));
            assert(faces@.subrange(0, i + 1).drop_last() =~= faces@.subrange(0, i as int));
            assert(faces@.subrange(0, i + 1).last() == faces@[i as int]);
        }
        acc = acc + face_score(faces[i]) as u32;
        i = i + 1;
    }
    proof {
        assert(faces@.subrange(0, i as int) =~= faces@);
    }
    acc
}

} // verus!
