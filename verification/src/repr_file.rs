use crate::text::{
    bytes_range, eq_bytes, first_byte, lemma_first_byte_bounds, lemma_first_byte_is, spec_lines,
    split_lines, views_of,
};
use vstd::prelude::*;

verus! {

/// Why a text failed to load as a value.
#[derive(Clone, Copy, PartialEq, Eq, Structural, Debug)]
pub enum LoadError {
    /// a non-empty line held no `=` separator
    LineWithoutEquals,
    /// no `Len` key with an unsigned-integer value
    MissingLen,
}

/// A value that is kept as the whole content of one file.
pub trait ReprFile: Sized {
    fn save(&self) -> Vec<u8>;

    fn load(src: &Vec<u8>) -> Result<Self, LoadError>;
}

// ---------------------------------------------------------------------------
// A list of lines as a file: saving concatenates the lines, loading splits
// the text into its lines.
// ---------------------------------------------------------------------------

/// The concatenation of a sequence of byte strings.
pub open spec fn concat_views(s: Seq<Seq<u8>>) -> Seq<u8>
    decreases s.len(),
{
    if s.len() == 0 {
        Seq::empty()
    } else {
        concat_views(s.drop_last()) + s.last()
    }
}

/// Appends a copy of `src` to `dst`.
pub fn append_bytes(dst: &mut Vec<u8>, src: &Vec<u8>)
    ensures
        final(dst)@ == old(dst)@ + src@,
{
    let mut i: usize = 0;
    while i < src.len()
        invariant
            0 <= i <= src@.len(),
            dst@ == old(dst)@ + src@.take(i as int),
        decreases src@.len() - i,
    {
        dst.push(src[i]);
        i = i + 1;
        assert(dst@ =~= old(dst)@ + src@.take(i as int));
    }
    assert(dst@ =~= old(dst)@ + src@);
}

/// Concatenates a list of lines into one text.
pub fn save_lines(v: &Vec<Vec<u8>>) -> (r: Vec<u8>)
    ensures
        r@ == concat_views(views_of(v@)),
{
    let mut out: Vec<u8> = Vec::new();
    let mut i: usize = 0;
    while i < v.len()
        invariant
            0 <= i <= v@.len(),
            out@ == concat_views(views_of(v@).take(i as int)),
        decreases v@.len() - i,
    {
        append_bytes(&mut out, &v[i]);
        i = i + 1;
        proof {
            assert(views_of(v@).take(i as int).drop_last() =~= views_of(v@).take(i - 1));
            assert(views_of(v@).take(i as int).last() == v@[i - 1]@);
        }
    }
    proof {
        assert(views_of(v@).take(v@.len() as int) =~= views_of(v@));
    }
    out
}

/// Splits a text into its lines.
pub fn load_lines(src: &Vec<u8>) -> (r: Vec<Vec<u8>>)
    ensures
        views_of(r@) == spec_lines(src@),
{
    split_lines(src)
}

impl ReprFile for Vec<Vec<u8>> {
    /// Concatenates the lines; line endings are not reinserted.
    fn save(&self) -> Vec<u8> {
        save_lines(self)
    }

    /// Splitting a text into lines never fails.
    fn load(src: &Vec<u8>) -> Result<Self, LoadError> {
        Ok(load_lines(src))
    }
}

// ---------------------------------------------------------------------------
// A list of key=value pairs as a file, one pair per line; a later line with
// the same key shadows an earlier one, as an insertion into a map would.
// ---------------------------------------------------------------------------

pub const EQUALS: u8 = 61;

/// The value bound to `key`, taking the latest binding.
pub open spec fn kv_get(ps: Seq<(Seq<u8>, Seq<u8>)>, key: Seq<u8>) -> Option<Seq<u8>>
    decreases ps.len(),
{
    if ps.len() == 0 {
        None
    } else if ps.last().0 == key {
        Some(ps.last().1)
    } else {
        kv_get(ps.drop_last(), key)
    }
}

/// How a sequence of lines reads as key=value pairs: empty lines are
/// skipped, any other line must hold an `=`, and it splits at the first one.
pub open spec fn kv_load_lines(lines: Seq<Seq<u8>>) -> Result<
    Seq<(Seq<u8>, Seq<u8>)>,
    LoadError,
>
    decreases lines.len(),
{
    if lines.len() == 0 {
        Ok(Seq::empty())
    } else {
        match kv_load_lines(lines.drop_last()) {
            Err(e) => Err(e),
            Ok(ps) => {
                let l = lines.last();
                if l.len() == 0 {
                    Ok(ps)
                } else {
                    let i = first_byte(l, EQUALS);
                    if i == l.len() {
                        Err(LoadError::LineWithoutEquals)
                    } else {
                        Ok(ps.push((l.take(i), l.skip(i + 1))))
                    }
                }
            },
        }
    }
}

/// A failing prefix decides the whole read.
proof fn lemma_kv_load_err(lines: Seq<Seq<u8>>, i: int)
    requires
        0 <= i <= lines.len(),
        kv_load_lines(lines.take(i)) is Err,
    ensures
        kv_load_lines(lines) == kv_load_lines(lines.take(i)),
    decreases lines.len() - i,
{
    if i < lines.len() {
        assert(lines.take(i + 1).drop_last() =~= lines.take(i));
        assert(kv_load_lines(lines.take(i + 1)) == kv_load_lines(lines.take(i)));
        lemma_kv_load_err(lines, i + 1);
    } else {
        assert(lines.take(i) =~= lines);
    }
}

/// An ordered list of key=value pairs.
pub struct KeyValues {
    pub pairs: Vec<(Vec<u8>, Vec<u8>)>,
}

impl KeyValues {
    /// The pairs as byte sequences.
    pub open spec fn pairs_view(&self) -> Seq<(Seq<u8>, Seq<u8>)> {
        Seq::new(self.pairs@.len(), |i: int| (self.pairs@[i].0@, self.pairs@[i].1@))
    }

    /// The latest value bound to `key`, if any.
    pub fn get(&self, key: &Vec<u8>) -> (r: Option<&Vec<u8>>)
        ensures
            match r {
                Some(v) => kv_get(self.pairs_view(), key@) == Some(v@),
                None => kv_get(self.pairs_view(), key@) is None,
            },
    {
        let mut i: usize = self.pairs.len();
        proof {
            assert(self.pairs_view().take(self.pairs@.len() as int) =~= self.pairs_view());
        }
        while i > 0
            invariant
                0 <= i <= self.pairs@.len(),
                kv_get(self.pairs_view(), key@) == kv_get(
                    self.pairs_view().take(i as int),
                    key@,
                ),
        decreases i,
        {
            proof {
                assert(self.pairs_view().take(i as int).last() == (
                    self.pairs@[i - 1].0@,
                    self.pairs@[i - 1].1@,
                ));
                assert(self.pairs_view().take(i as int).drop_last() =~= self.pairs_view().take(
                    i - 1,
                ));
            }
            if eq_bytes(&self.pairs[i - 1].0, key) {
                return Some(&self.pairs[i - 1].1);
            }
            i = i - 1;
        }
        proof {
            assert(self.pairs_view().take(0) =~= Seq::<(Seq<u8>, Seq<u8>)>::empty());
        }
        None
    }

    /// Reads a key=value file.
    pub fn load_kv(src: &Vec<u8>) -> (r: Result<KeyValues, LoadError>)
        ensures
            match r {
                Ok(kv) => kv_load_lines(spec_lines(src@)) == Ok::<_, LoadError>(kv.pairs_view()),
                Err(e) => kv_load_lines(spec_lines(src@)) == Err::<Seq<(Seq<u8>, Seq<u8>)>, _>(e),
            },
    {
        let lines = split_lines(src);
        let ghost lv = views_of(lines@);
        let mut pairs: Vec<(Vec<u8>, Vec<u8>)> = Vec::new();
        let mut i: usize = 0;
        proof {
            assert(lv.take(0) =~= Seq::<Seq<u8>>::empty());
            assert(Seq::new(pairs@.len(), |k: int| (pairs@[k].0@, pairs@[k].1@)) =~= Seq::<(
                Seq<u8>,
                Seq<u8>,
            )>::empty());
        }
        while i < lines.len()
            invariant
                0 <= i <= lines@.len(),
                lv == views_of(lines@),
                lv == spec_lines(src@),
                kv_load_lines(lv.take(i as int)) == Ok::<_, LoadError>(
                    Seq::new(pairs@.len(), |k: int| (pairs@[k].0@, pairs@[k].1@)),
                ),
            decreases lines@.len() - i,
        {
            let ghost prev_pairs = Seq::new(pairs@.len(), |k: int| (pairs@[k].0@, pairs@[k].1@));
            let line = &lines[i];
            proof {
                assert(lv.take(i + 1).drop_last() =~= lv.take(i as int));
                assert(lv.take(i + 1).last() == line@);
            }
            if line.len() == 0 {
                // an empty line carries nothing
            } else {
                // find the first `=`
                let mut j: usize = 0;
                while j < line.len() && line[j] != EQUALS
                    invariant
                        0 <= j <= line@.len(),
                        forall|k: int| 0 <= k < j ==> line@[k] != EQUALS,
                    decreases line@.len() - j,
                {
                    j = j + 1;
                }
                proof {
                    lemma_first_byte_is(line@, EQUALS, j as int);
                }
                if j == line.len() {
                    proof {
                        assert(kv_load_lines(lv.take(i + 1)) == Err::<
                            Seq<(Seq<u8>, Seq<u8>)>,
                            _,
                        >(LoadError::LineWithoutEquals));
                        lemma_kv_load_err(lv, i + 1);
                    }
                    return Err(LoadError::LineWithoutEquals);
                }
                let k = bytes_range(line, 0, j);
                let v = bytes_range(line, j + 1, line.len());
                proof {
                    assert(k@ =~= line@.take(j as int));
                    assert(v@ =~= line@.skip(j + 1));
                }
                let ghost kv0 = k@;
                let ghost vv0 = v@;
                pairs.push((k, v));
                proof {
                    assert(Seq::new(pairs@.len(), |k: int| (pairs@[k].0@, pairs@[k].1@))
                        =~= prev_pairs.push((kv0, vv0)));
                }
            }
            i = i + 1;
        }
        proof {
            assert(lv.take(lines@.len() as int) =~= lv);
        }
        Ok(KeyValues { pairs })
    }
}

impl ReprFile for KeyValues {
    /// One `key=value` line per pair, in order.
    fn save(&self) -> Vec<u8> {
        let mut out: Vec<u8> = Vec::new();
        let mut i: usize = 0;
        while i < self.pairs.len()
            decreases self.pairs@.len() - i,
        {
            append_bytes(&mut out, &self.pairs[i].0);
            out.push(EQUALS);
            append_bytes(&mut out, &self.pairs[i].1);
            out.push(10);
            i = i + 1;
        }
        out
    }

    fn load(src: &Vec<u8>) -> Result<Self, LoadError> {
        Self::load_kv(src)
    }
}

} // verus!
