//! Splitting a path into its `/`-delimited segments, empty ones dropped.
use vstd::prelude::*;

verus! {

/// One step of the left-to-right scan: the segments finished so far and the
/// one being read, after reading `c`.
pub open spec fn split_step(st: (Seq<Seq<char>>, Seq<char>), c: char) -> (Seq<Seq<char>>, Seq<char>) {
    if c == '/' {
        (if st.1.len() > 0 { st.0.push(st.1) } else { st.0 }, Seq::empty())
    } else {
        (st.0, st.1.push(c))
    }
}

/// The scan over all of `p`.
pub open spec fn split_scan(p: Seq<char>) -> (Seq<Seq<char>>, Seq<char>)
    decreases p.len(),
{
    if p.len() == 0 {
        (Seq::empty(), Seq::empty())
    } else {
        split_step(split_scan(p.drop_last()), p.last())
    }
}

/// The non-empty `/`-delimited segments of `p`, in order.
pub open spec fn segments(p: Seq<char>) -> Seq<Seq<char>> {
    let st = split_scan(p);
    if st.1.len() > 0 {
        st.0.push(st.1)
    } else {
        st.0
    }
}

/// Models of a sequence of strings.
pub open spec fn strings_view(v: Seq<String>) -> Seq<Seq<char>> {
    v.map_values(|s: String| s@)
}

/// The non-empty segments of `path`: `"/a//b"` and `"a/b"` both give `["a", "b"]`.
pub fn split_segments(path: &str) -> (r: Vec<String>)
    ensures
        strings_view(r@) == segments(path@),
{
    let n = path.unicode_len();
    let mut out: Vec<String> = Vec::new();
    let mut start: usize = 0;
    let mut i: usize = 0;
    proof {
        assert(path@.subrange(0, 0) =~= Seq::<char>::empty());
        assert(strings_view(out@) =~= Seq::<Seq<char>>::empty());
    }
    while i < n
        invariant
            n == path@.len(),
            0 <= start <= i <= n,
            split_scan(path@.subrange(0, i as int)) == (strings_view(out@), path@.subrange(
                start as int,
                i as int,
            )),
        decreases n - i,
    {
        let c = path.get_char(i);
        proof {
            assert(path@.subrange(0, i + 1).drop_last() =~= path@.subrange(0, i as int));
            assert(path@.subrange(0, i + 1).last() == c);
        }
        if c == '/' {
            if start < i {
                let seg = path.substring_char(start, i).to_owned();
                let ghost before = out@;
                out.push(seg);
                proof {
                    assert(strings_view(out@) =~= strings_view(before).push(seg@));
                }
            }
            start = i + 1;
            proof {
                assert(path@.subrange(start as int, i + 1) =~= Seq::<char>::empty());
            }
        } else {
            proof {
                assert(path@.subrange(start as int, i + 1) =~= path@.subrange(
                    start as int,
                    i as int,
                ).push(c));
            }
        }
        i = i + 1;
    }
    proof {
        assert(path@.subrange(0, n as int) =~= path@);
    }
    if start < n {
        let seg = path.substring_char(start, n).to_owned();
        let ghost before = out@;
        out.push(seg);
        proof {
            assert(strings_view(out@) =~= strings_view(before).push(seg@));
        }
    }
    out
}

} // verus!
