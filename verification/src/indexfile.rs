use crate::repr_file::{kv_get, kv_load_lines, KeyValues, LoadError, ReprFile, EQUALS};
use crate::text::{
    lemma_dec_digits, lemma_dec_round_trip, parse_u64, spec_dec, spec_lines, spec_parse_u64,
    u64_to_dec, LF,
};
use crate::update_index::Settings;
use vstd::prelude::*;

verus! {

/// The `Len` key of a record file.
pub open spec fn len_key() -> Seq<u8> {
    seq![76u8, 101u8, 110u8]
}

/// The `Age` key of a record file.
pub open spec fn age_key() -> Seq<u8> {
    seq![65u8, 103u8, 101u8]
}

/// One file's metadata record: size in bytes and, when it could be read at
/// snapshot time, the modification time in whole seconds since the epoch.
#[derive(Clone, Copy, PartialEq, Eq, Structural, Debug)]
pub struct IndexFile {
    pub size: u64,
    pub last_modified: Option<u64>,
}

impl IndexFile {
    /// The update-policy decision: a file whose size changed is always
    /// updated; with equal sizes the optional timestamps and the policy
    /// flags decide.
    pub open spec fn spec_should_be_updated(new: IndexFile, prev: IndexFile, settings: Settings) -> bool {
        ||| new.size != prev.size
        ||| {
            &&& !settings.ignore_timestamp
            &&& match (new.last_modified, prev.last_modified) {
                (Some(n), Some(o)) => {
                    if n > o {
                        true
                    } else if n < o {
                        !settings.dont_replace_newer
                    } else {
                        false
                    }
                },
                (Some(_), None) => !settings.dont_replace_if_timestamp_found,
                (None, Some(_)) => settings.replace_if_timestamp_lost,
                (None, None) => settings.replace_if_timestamp_unknown,
            }
        }
    }

    /// Decides whether the file described by `self` must replace the one
    /// recorded as `prev`, under the given update policy.
    pub fn should_be_updated(&self, prev: &Self, settings: &Settings) -> (r: bool)
        ensures
            r == Self::spec_should_be_updated(*self, *prev, *settings),
    {
        self.size != prev.size
            || ((!settings.ignore_timestamp)
                && match (self.last_modified, prev.last_modified) {
                    (Some(new), Some(old)) => {
                        if new > old {
                            true
                        } else if new < old {
                            !settings.dont_replace_newer
                        } else {
                            false
                        }
                    },
                    (Some(_), None) => !settings.dont_replace_if_timestamp_found,
                    (None, Some(_)) => settings.replace_if_timestamp_lost,
                    (None, None) => settings.replace_if_timestamp_unknown,
                })
    }

    /// The exact text this record is saved as: a `Len=<size>` line, then an
    /// `Age=<seconds>` line when the timestamp is known.
    pub open spec fn repr(self) -> Seq<u8> {
        len_key() + seq![EQUALS] + spec_dec(self.size as nat) + seq![LF] + (
        match self.last_modified {
            Some(a) => age_key() + seq![EQUALS] + spec_dec(a as nat) + seq![LF],
            None => Seq::empty(),
        })
    }

    /// The exact reading of a record file: the lines are read as key=value
    /// pairs, `Len` must hold an unsigned integer, and an unreadable or
    /// absent `Age` is silently dropped.
    pub open spec fn spec_load(src: Seq<u8>) -> Result<IndexFile, LoadError> {
        match kv_load_lines(spec_lines(src)) {
            Err(e) => Err(e),
            Ok(ps) => match kv_get(ps, len_key()) {
                Some(lv) => match spec_parse_u64(lv) {
                    Some(size) => Ok(
                        IndexFile {
                            size,
                            last_modified: match kv_get(ps, age_key()) {
                                Some(av) => spec_parse_u64(av),
                                None => None,
                            },
                        },
                    ),
                    None => Err(LoadError::MissingLen),
                },
                None => Err(LoadError::MissingLen),
            },
        }
    }

    /// Serialises this record.
    pub fn save(&self) -> (r: Vec<u8>)
        ensures
            r@ == self.repr(),
    {
        let mut out: Vec<u8> = Vec::new();
        out.push(76);
        out.push(101);
        out.push(110);
        out.push(EQUALS);
        let d = u64_to_dec(self.size);
        crate::repr_file::append_bytes(&mut out, &d);
        out.push(LF);
        match self.last_modified {
            Some(a) => {
                out.push(65);
                out.push(103);
                out.push(101);
                out.push(EQUALS);
                let ad = u64_to_dec(a);
                crate::repr_file::append_bytes(&mut out, &ad);
                out.push(LF);
                assert(out@ =~= self.repr());
            },
            None => {
                assert(out@ =~= self.repr());
            },
        }
        out
    }

    /// Reads a record file.
    pub fn load(src: &Vec<u8>) -> (r: Result<IndexFile, LoadError>)
        ensures
            r == Self::spec_load(src@),
    {
        let kv = match KeyValues::load_kv(src) {
            Ok(kv) => kv,
            Err(e) => {
                return Err(e);
            },
        };
        let mut lenk: Vec<u8> = Vec::new();
        lenk.push(76);
        lenk.push(101);
        lenk.push(110);
        assert(lenk@ =~= len_key());
        let size = match kv.get(&lenk) {
            Some(v) => match parse_u64(v) {
                Some(size) => size,
                None => {
                    return Err(LoadError::MissingLen);
                },
            },
            None => {
                return Err(LoadError::MissingLen);
            },
        };
        let mut agek: Vec<u8> = Vec::new();
        agek.push(65);
        agek.push(103);
        agek.push(101);
        assert(agek@ =~= age_key());
        let last_modified = match kv.get(&agek) {
            Some(av) => parse_u64(av),
            None => None,
        };
        Ok(IndexFile { size, last_modified })
    }
}

impl ReprFile for IndexFile {
    fn save(&self) -> Vec<u8> {
        IndexFile::save(self)
    }

    fn load(src: &Vec<u8>) -> Result<Self, LoadError> {
        IndexFile::load(src)
    }
}

/// Saving a record and loading the text back yields the record, whatever
/// its size and whether or not its timestamp is known.
pub proof fn lemma_record_round_trip(rec: IndexFile)
    ensures
        IndexFile::spec_load(rec.repr()) == Ok::<IndexFile, LoadError>(rec),
{
    lemma_dec_digits(rec.size as nat);
    assert(spec_lines(Seq::<u8>::empty()) =~= Seq::<Seq<u8>>::empty());
    let dsize = spec_dec(rec.size as nat);
    let l_line = len_key() + seq![EQUALS] + dsize;
    let repr = rec.repr();
    // the first line feed stands right after the Len line
    assert forall|j: int| 0 <= j < l_line.len() implies repr[j] != LF by {
        if j < 3 {
            assert(l_line[j] == len_key()[j]);
        } else if j == 3 {
            assert(l_line[j] == EQUALS);
        } else {
            assert(l_line[j] == dsize[j - 4]);
        }
        assert(repr[j] == l_line[j]);
    }
    assert(repr[l_line.len() as int] == LF);
    crate::text::lemma_first_byte_is(repr, LF, l_line.len() as int);
    assert(crate::text::strip_cr(repr.take(l_line.len() as int)) =~= l_line) by {
        assert(repr.take(l_line.len() as int) =~= l_line);
        assert(l_line.last() == dsize.last());
    }
    // the Len line splits at its first equals sign
    assert forall|j: int| 0 <= j < 3 implies l_line[j] != EQUALS by {
        assert(l_line[j] == len_key()[j]);
    }
    assert(l_line[3] == EQUALS);
    crate::text::lemma_first_byte_is(l_line, EQUALS, 3);
    assert(l_line.take(3) =~= len_key());
    assert(l_line.skip(4) =~= dsize);
    lemma_dec_round_trip(rec.size);
    match rec.last_modified {
        None => {
            assert(repr.skip(l_line.len() as int + 1) =~= Seq::<u8>::empty());
            assert(spec_lines(repr) =~= seq![l_line]);
            let ps = kv_load_lines(spec_lines(repr));
            assert(seq![l_line].drop_last() =~= Seq::<Seq<u8>>::empty());
            assert(kv_load_lines(Seq::<Seq<u8>>::empty()) == Ok::<_, LoadError>(Seq::<(
                Seq<u8>,
                Seq<u8>,
            )>::empty()));
            assert(ps == Ok::<_, LoadError>(
                Seq::<(Seq<u8>, Seq<u8>)>::empty().push((len_key(), dsize)),
            ));
            let pairs = Seq::<(Seq<u8>, Seq<u8>)>::empty().push((len_key(), dsize));
            assert(kv_get(pairs, len_key()) == Some(dsize));
            assert(pairs.drop_last() =~= Seq::<(Seq<u8>, Seq<u8>)>::empty());
            assert(len_key()[0] != age_key()[0]);
            assert(kv_get(Seq::<(Seq<u8>, Seq<u8>)>::empty(), age_key()) is None);
            assert(kv_get(pairs, age_key()) is None);
        },
        Some(a) => {
            lemma_dec_digits(a as nat);
            let dage = spec_dec(a as nat);
            let a_line = age_key() + seq![EQUALS] + dage;
            let tail = a_line + seq![LF];
            assert(repr.skip(l_line.len() as int + 1) =~= tail);
            // the tail holds exactly the Age line
            assert forall|j: int| 0 <= j < a_line.len() implies tail[j] != LF by {
                if j < 3 {
                    assert(a_line[j] == age_key()[j]);
                } else if j == 3 {
                    assert(a_line[j] == EQUALS);
                } else {
                    assert(a_line[j] == dage[j - 4]);
                }
                assert(tail[j] == a_line[j]);
            }
            assert(tail[a_line.len() as int] == LF);
            crate::text::lemma_first_byte_is(tail, LF, a_line.len() as int);
            assert(tail.skip(a_line.len() as int + 1) =~= Seq::<u8>::empty());
            assert(crate::text::strip_cr(tail.take(a_line.len() as int)) =~= a_line) by {
                assert(tail.take(a_line.len() as int) =~= a_line);
                assert(a_line.last() == dage.last());
            }
            assert(spec_lines(tail) =~= seq![a_line]);
            assert(spec_lines(repr) =~= seq![l_line, a_line]);
            // the Age line splits at its first equals sign
            assert forall|j: int| 0 <= j < 3 implies a_line[j] != EQUALS by {
                assert(a_line[j] == age_key()[j]);
            }
            assert(a_line[3] == EQUALS);
            crate::text::lemma_first_byte_is(a_line, EQUALS, 3);
            assert(a_line.take(3) =~= age_key());
            assert(a_line.skip(4) =~= dage);
            lemma_dec_round_trip(a);
            // read the two lines as pairs
            assert(seq![l_line, a_line].drop_last() =~= seq![l_line]);
            assert(seq![l_line].drop_last() =~= Seq::<Seq<u8>>::empty());
            assert(kv_load_lines(Seq::<Seq<u8>>::empty()) == Ok::<_, LoadError>(Seq::<(
                Seq<u8>,
                Seq<u8>,
            )>::empty()));
            let p1 = Seq::<(Seq<u8>, Seq<u8>)>::empty().push((len_key(), dsize));
            assert(kv_load_lines(seq![l_line]) == Ok::<_, LoadError>(p1));
            let pairs = p1.push((age_key(), dage));
            assert(kv_load_lines(spec_lines(repr)) == Ok::<_, LoadError>(pairs));
            assert(age_key()[0] != len_key()[0]);
            assert(pairs.drop_last() =~= p1);
            assert(kv_get(p1, len_key()) == Some(dsize));
            assert(kv_get(pairs, len_key()) == Some(dsize));
            assert(kv_get(pairs, age_key()) == Some(dage));
        },
    }
}

} // verus!
