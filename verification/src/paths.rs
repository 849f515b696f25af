use crate::text::{bytes_range, eq_bytes, first_byte, lemma_first_byte_bounds, lemma_first_byte_is, views_of};
use vstd::prelude::*;

verus! {

// ---------------------------------------------------------------------------
// Relative paths are lists of name components (byte strings). Joining with a
// slash gives the usual textual form; splitting at slashes, dropping empty
// pieces, reads one back.
// ---------------------------------------------------------------------------

pub const SLASH: u8 = 47;

/// The textual form of a component path, components separated by slashes.
pub open spec fn join_path(p: Seq<Seq<u8>>) -> Seq<u8>
    decreases p.len(),
{
    if p.len() == 0 {
        Seq::empty()
    } else if p.len() == 1 {
        p[0]
    } else {
        join_path(p.drop_last()) + seq![SLASH] + p.last()
    }
}

/// The components of a textual path: the pieces between slashes, with empty
/// pieces dropped.
pub open spec fn split_path(s: Seq<u8>) -> Seq<Seq<u8>>
    decreases s.len(),
    via split_path_dec
{
    if s.len() == 0 {
        seq![]
    } else {
        let i = first_byte(s, SLASH);
        if i == s.len() {
            seq![s]
        } else if i == 0 {
            split_path(s.skip(1))
        } else {
            seq![s.take(i)] + split_path(s.skip(i + 1))
        }
    }
}

#[via_fn]
proof fn split_path_dec(s: Seq<u8>) {
    lemma_first_byte_bounds(s, SLASH);
}

/// A copy of one byte vector.
pub fn clone_bytes(v: &Vec<u8>) -> (r: Vec<u8>)
    ensures
        r@ == v@,
{
    let r = bytes_range(v, 0, v.len());
    proof {
        assert(v@.subrange(0, v@.len() as int) =~= v@);
    }
    r
}

/// A copy of the components `a..b` of a path.
pub fn path_range(p: &Vec<Vec<u8>>, a: usize, b: usize) -> (r: Vec<Vec<u8>>)
    requires
        a <= b <= p@.len(),
    ensures
        views_of(r@) == views_of(p@).subrange(a as int, b as int),
{
    let mut r: Vec<Vec<u8>> = Vec::new();
    let mut i: usize = a;
    while i < b
        invariant
            a <= i <= b <= p@.len(),
            r@.len() == i - a,
            forall|k: int| 0 <= k < i - a ==> #[trigger] r@[k]@ == p@[a + k]@,
        decreases b - i,
    {
        let c = clone_bytes(&p[i]);
        r.push(c);
        i = i + 1;
    }
    proof {
        assert forall|k: int| 0 <= k < views_of(r@).len() implies views_of(r@)[k] == views_of(
            p@,
        ).subrange(a as int, b as int)[k] by {
            assert(r@[k]@ == p@[a + k]@);
        }
        assert(views_of(r@) =~= views_of(p@).subrange(a as int, b as int));
    }
    r
}

/// A full copy of a path.
pub fn clone_path(p: &Vec<Vec<u8>>) -> (r: Vec<Vec<u8>>)
    ensures
        views_of(r@) == views_of(p@),
{
    let r = path_range(p, 0, p.len());
    proof {
        assert(views_of(p@).subrange(0, p@.len() as int) =~= views_of(p@));
    }
    r
}

/// A copy of a path with one more component at its end.
pub fn path_push(p: &Vec<Vec<u8>>, name: &Vec<u8>) -> (r: Vec<Vec<u8>>)
    ensures
        views_of(r@) == views_of(p@).push(name@),
{
    let mut r = clone_path(p);
    r.push(clone_bytes(name));
    proof {
        assert(views_of(r@) =~= views_of(p@).push(name@));
    }
    r
}

/// Component-wise path equality.
pub fn path_eq(a: &Vec<Vec<u8>>, b: &Vec<Vec<u8>>) -> (r: bool)
    ensures
        r == (views_of(a@) == views_of(b@)),
{
    if a.len() != b.len() {
        assert(views_of(a@).len() != views_of(b@).len());
        return false;
    }
    let mut i: usize = 0;
    while i < a.len()
        invariant
            0 <= i <= a@.len(),
            a@.len() == b@.len(),
            forall|j: int| 0 <= j < i ==> views_of(a@)[j] == views_of(b@)[j],
        decreases a@.len() - i,
    {
        if !eq_bytes(&a[i], &b[i]) {
            assert(views_of(a@)[i as int] != views_of(b@)[i as int]);
            return false;
        }
        i = i + 1;
    }
    assert(views_of(a@) =~= views_of(b@));
    true
}

/// The textual form of a component path.
pub fn join_path_bytes(p: &Vec<Vec<u8>>) -> (r: Vec<u8>)
    ensures
        r@ == join_path(views_of(p@)),
{
    let ghost q = views_of(p@);
    let mut r: Vec<u8> = Vec::new();
    proof {
        assert(q.take(0) =~= Seq::<Seq<u8>>::empty());
    }
    let mut i: usize = 0;
    while i < p.len()
        invariant
            0 <= i <= p@.len(),
            q == views_of(p@),
            r@ == join_path(q.take(i as int)),
        decreases p@.len() - i,
    {
        if i > 0 {
            r.push(SLASH);
        }
        crate::repr_file::append_bytes(&mut r, &p[i]);
        i = i + 1;
        proof {
            assert(q.take(i as int).drop_last() =~= q.take(i - 1));
            assert(q.take(i as int).last() == q[i - 1]);
            if i == 1 {
                assert(r@ =~= join_path(q.take(i as int)));
            } else {
                assert(r@ =~= join_path(q.take(i as int)));
            }
        }
    }
    proof {
        assert(q.take(p@.len() as int) =~= q);
    }
    r
}

/// Splits a textual path into its components.
pub fn split_path_bytes(s: &Vec<u8>) -> (r: Vec<Vec<u8>>)
    ensures
        views_of(r@) == split_path(s@),
{
    let mut out: Vec<Vec<u8>> = Vec::new();
    let mut start: usize = 0;
    proof {
        assert(views_of(out@) =~= Seq::<Seq<u8>>::empty());
        assert(s@.skip(0) =~= s@);
    }
    while start < s.len()
        invariant
            0 <= start <= s@.len(),
            split_path(s@) == views_of(out@) + split_path(s@.skip(start as int)),
        decreases s@.len() - start,
    {
        let ghost rest = s@.skip(start as int);
        let mut i: usize = start;
        while i < s.len() && s[i] != SLASH
            invariant
                start <= i <= s@.len(),
                forall|j: int| start <= j < i ==> s@[j] != SLASH,
            decreases s@.len() - i,
        {
            i = i + 1;
        }
        proof {
            assert forall|j: int| 0 <= j < i - start implies rest[j] != SLASH by {
                assert(s@[start + j] != SLASH);
            }
            assert(i < s@.len() ==> rest[i - start] == SLASH);
            lemma_first_byte_is(rest, SLASH, i - start);
        }
        if i == start {
            // empty piece: a leading or doubled slash carries nothing
            proof {
                assert(rest.skip(1) =~= s@.skip(start + 1));
            }
            start = start + 1;
        } else {
            let piece = bytes_range(s, start, i);
            proof {
                assert(piece@ =~= rest.take(i - start));
            }
            let ghost pv = piece@;
            let ghost old_views = views_of(out@);
            out.push(piece);
            proof {
                assert(views_of(out@) =~= old_views + seq![pv]);
            }
            if i == s.len() {
                proof {
                    assert(first_byte(rest, SLASH) == rest.len());
                    assert(pv =~= rest);
                    assert(split_path(rest) =~= seq![rest]);
                    assert(views_of(out@) + split_path(s@.skip(s@.len() as int)) =~= split_path(
                        s@,
                    ));
                }
                start = s.len();
            } else {
                proof {
                    assert(split_path(rest) =~= seq![rest.take(i - start)] + split_path(
                        rest.skip(i - start + 1),
                    ));
                    assert(rest.skip(i - start + 1) =~= s@.skip(i + 1));
                    assert(views_of(out@) + split_path(s@.skip(i + 1)) =~= split_path(s@));
                }
                start = i + 1;
            }
        }
    }
    proof {
        assert(split_path(s@.skip(start as int)) =~= Seq::<Seq<u8>>::empty());
        assert(views_of(out@) =~= split_path(s@));
    }
    out
}

} // verus!
