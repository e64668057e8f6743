//! Which of a stream's variants are downloaded. Variants are ranked by bandwidth, highest first;
//! among equal bandwidths the one listed first ranks first.
use vstd::prelude::*;

verus! {

/// Whether variant `i` ranks before variant `j` (by bandwidth, then by position); variants are
/// `(bandwidth, height)`.
pub open spec fn ranks_before(variants: Seq<(u64, u64)>, i: int, j: int) -> bool {
    variants[i].0 > variants[j].0 || (variants[i].0 == variants[j].0 && i < j)
}

/// Whether variant `j` has the wanted height (any height where none is wanted).
pub open spec fn admitted(variants: Seq<(u64, u64)>, height: Option<u64>, j: int) -> bool {
    match height {
        Some(h) => variants[j].1 == h,
        None => true,
    }
}

/// Whether variant `i` ranks first among the variants of the wanted height.
pub open spec fn first_ranked(variants: Seq<(u64, u64)>, height: Option<u64>, i: int) -> bool {
    &&& 0 <= i < variants.len()
    &&& admitted(variants, height, i)
    &&& forall|j: int|
        #![trigger variants[j]]
        0 <= j < variants.len() && j != i && admitted(variants, height, j) ==> ranks_before(variants, i, j)
}

/// Whether variant `i` ranks last of all.
pub open spec fn last_ranked(variants: Seq<(u64, u64)>, i: int) -> bool {
    &&& 0 <= i < variants.len()
    &&& forall|j: int| #![trigger variants[j]] 0 <= j < variants.len() && j != i ==> ranks_before(variants, j, i)
}

/// The index of the first-ranked variant of the wanted height (see [`first_ranked`]).
fn first_ranked_exec(variants: &Vec<(u64, u64)>, height: Option<u64>) -> (r: Option<usize>)
    ensures
        match r {
            Some(i) => first_ranked(variants@, height, i as int),
            None => forall|j: int| #![trigger variants@[j]] 0 <= j < variants@.len() ==> !admitted(variants@, height, j),
        },
{
    let mut best: Option<usize> = None;
    let mut i: usize = 0;
    while i < variants.len()
        invariant
            i <= variants@.len(),
            match best {
                Some(b) => b < i && admitted(variants@, height, b as int) && forall|j: int|
                    #![trigger variants@[j]]
                    0 <= j < i && j != b && admitted(variants@, height, j) ==> ranks_before(variants@, b as int, j),
                None => forall|j: int| #![trigger variants@[j]] 0 <= j < i ==> !admitted(variants@, height, j),
            },
        decreases variants@.len() - i,
    {
        let ok = match height {
            Some(h) => variants[i].1 == h,
            None => true,
        };
        if ok {
            match best {
                None => {
                    best = Some(i);
                },
                Some(b) => {
                    if variants[i].0 > variants[b].0 {
                        best = Some(i);
                    }
                },
            }
        }
        i = i + 1;
    }
    proof {
        if let Some(b) = best {
            assert forall|j: int| #![trigger variants@[j]] 0 <= j < variants@.len() && j != b && admitted(variants@, height, j)
                implies ranks_before(variants@, b as int, j) by {
                assert(0 <= j < i);
            }
            assert(0 <= b < variants@.len());
            assert(admitted(variants@, height, b as int));
            assert(first_ranked(variants@, height, b as int));
        } else {
            assert forall|j: int| #![trigger variants@[j]] 0 <= j < variants@.len() implies !admitted(variants@, height, j) by {
                assert(0 <= j < i);
                assert(variants@[j] == variants@[j]);
            }
            if height is None && variants@.len() > 0 {
                assert(variants@[0] == variants@[0]);
                assert(!admitted(variants@, height, 0));
            }
        }
    }
    best
}

/// The video variant for the wanted picture `height`: `u64::MAX` asks for the first-ranked
/// variant, `0` for the last-ranked one, any other height for the first-ranked variant of that
/// height (none where no variant has it). Variants are `(bandwidth, height)`.
pub fn pick_video(variants: &Vec<(u64, u64)>, height: u64) -> (r: Option<usize>)
    requires
        height == u64::MAX || height == 0 ==> variants@.len() > 0,
    ensures
        if height == u64::MAX {
            r matches Some(i) && first_ranked(variants@, None, i as int)
        } else if height == 0 {
            r matches Some(i) && last_ranked(variants@, i as int)
        } else {
            match r {
                Some(i) => first_ranked(variants@, Some(height), i as int),
                None => forall|j: int| 0 <= j < variants@.len() ==> #[trigger] variants@[j].1 != height,
            }
        },
{
    if height == u64::MAX {
        let r = first_ranked_exec(variants, None);
        proof {
            if r is None {
                assert(admitted(variants@, None, 0));
                assert(variants@[0] == variants@[0]);
            }
        }
        r
    } else if height == 0 {
        let mut worst: usize = 0;
        let mut i: usize = 1;
        while i < variants.len()
            invariant
                1 <= i <= variants@.len(),
                worst < i,
                forall|j: int| #![trigger variants@[j]] 0 <= j < i && j != worst ==> ranks_before(variants@, j, worst as int),
            decreases variants@.len() - i,
        {
            if variants[i].0 <= variants[worst].0 {
                worst = i;
            }
            i = i + 1;
        }
        Some(worst)
    } else {
        let r = first_ranked_exec(variants, Some(height));
        proof {
            if r is None {
                assert forall|j: int| 0 <= j < variants@.len() implies #[trigger] variants@[j].1 != height by {
                    assert(!admitted(variants@, Some(height), j));
                }
            }
        }
        r
    }
}

/// The audio variant downloaded: the one with the highest bandwidth, the first listed among
/// equals.
pub fn pick_audio(bandwidths: &Vec<u64>) -> (r: usize)
    requires
        bandwidths@.len() > 0,
    ensures
        r < bandwidths@.len(),
        forall|j: int|
            #![trigger bandwidths@[j]]
            0 <= j < bandwidths@.len() && j != r ==> bandwidths@[r as int] > bandwidths@[j] || (bandwidths@[r as int]
                == bandwidths@[j] && r < j),
{
    let mut best: usize = 0;
    let mut i: usize = 1;
    while i < bandwidths.len()
        invariant
            1 <= i <= bandwidths@.len(),
            best < i,
            forall|j: int|
                #![trigger bandwidths@[j]]
                0 <= j < i && j != best ==> bandwidths@[best as int] > bandwidths@[j] || (bandwidths@[best as int]
                    == bandwidths@[j] && best < j),
        decreases bandwidths@.len() - i,
    {
        if bandwidths[i] > bandwidths[best] {
            best = i;
        }
        i = i + 1;
    }
    best
}

} // verus!
