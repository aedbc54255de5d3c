use vstd::prelude::*;

verus! {

/// The pieces of `s` between occurrences of `sep`, in order. There is always at least one
/// piece: the empty sequence is one empty piece, and `n` separators make `n + 1` pieces.
pub open spec fn split_spec(s: Seq<char>, sep: char) -> Seq<Seq<char>>
    decreases s.len(),
{
    if s.len() == 0 {
        seq![Seq::<char>::empty()]
    } else {
        let p = split_spec(s.drop_last(), sep);
        if s.last() == sep {
            p.push(Seq::<char>::empty())
        } else {
            p.update(p.len() - 1, p.last().push(s.last()))
        }
    }
}

/// The bounds of the pieces of `chars[start..end]` between occurrences of `sep`, as
/// positions in `chars`.
pub fn split_ranges(chars: &Vec<char>, start: usize, end: usize, sep: char) -> (r: Vec<(usize, usize)>)
    requires
        start <= end <= chars@.len(),
    ensures
        r@.len() == split_spec(chars@.subrange(start as int, end as int), sep).len(),
        forall|k: int|
            0 <= k < r@.len() ==> start <= (#[trigger] r@[k]).0 <= r@[k].1 <= end && chars@.subrange(
                r@[k].0 as int,
                r@[k].1 as int,
            ) == split_spec(chars@.subrange(start as int, end as int), sep)[k],
{
    let mut ranges: Vec<(usize, usize)> = Vec::new();
    let mut cur: usize = start;
    let mut i: usize = start;
    proof {
        assert(chars@.subrange(start as int, start as int) =~= Seq::<char>::empty());
        assert(split_spec(Seq::<char>::empty(), sep) == seq![Seq::<char>::empty()]);
    }
    while i < end
        invariant
            start <= cur <= i <= end <= chars@.len(),
            split_spec(chars@.subrange(start as int, i as int), sep).len() == ranges@.len() + 1,
            forall|k: int|
                0 <= k < ranges@.len() ==> start <= (#[trigger] ranges@[k]).0 <= ranges@[k].1 <= i
                    && chars@.subrange(ranges@[k].0 as int, ranges@[k].1 as int) == split_spec(
                    chars@.subrange(start as int, i as int),
                    sep,
                )[k],
            split_spec(chars@.subrange(start as int, i as int), sep)[ranges@.len() as int]
                == chars@.subrange(cur as int, i as int),
        decreases end - i,
    {
        let ghost prev = chars@.subrange(start as int, i as int);
        let ghost next = chars@.subrange(start as int, i + 1);
        proof {
            assert(next.drop_last() =~= prev);
            assert(next.last() == chars@[i as int]);
        }
        if chars[i] == sep {
            ranges.push((cur, i));
            cur = i + 1;
            proof {
                assert(chars@.subrange(cur as int, i + 1) =~= Seq::<char>::empty());
            }
        } else {
            proof {
                assert(chars@.subrange(cur as int, i as int).push(chars@[i as int]) =~= chars@.subrange(
                    cur as int,
                    i + 1,
                ));
            }
        }
        i = i + 1;
    }
    ranges.push((cur, end));
    ranges
}

} // verus!
