use vstd::prelude::*;
use crate::db::{DbColFam, RocksDB};
use crate::error::Error;
use crate::store::{map_get, prefix_pred, Cf};
use crate::strings::dec_str;
use crate::subspace::read_with_height_spec;

verus! {

/// The lowercase hexadecimal digit for `n`.
pub open spec fn hex_digit(n: nat) -> char
    recommends
        n < 16,
{
    if n < 10 {
        ((n + 48) as u8) as char
    } else {
        ((n + 87) as u8) as char
    }
}

/// The lowercase hexadecimal rendering of a byte string: two digits per
/// byte.
pub open spec fn hex_lower(b: Seq<u8>) -> Seq<char>
    decreases b.len(),
{
    if b.len() == 0 {
        Seq::empty()
    } else {
        hex_lower(b.drop_last()) + seq![
            hex_digit((b.last() / 16) as nat),
            hex_digit((b.last() % 16) as nat),
        ]
    }
}

/// Relies on `data_encoding::HEXLOWER.encode`: two lowercase hexadecimal
/// digits per byte, in order.
#[verifier::external_body]
pub fn hex_encode(v: &Vec<u8>) -> (r: String)
    ensures
        r@ == hex_lower(v@),
{
    data_encoding::HEXLOWER.encode(v.as_slice())
}

/// One dump line: the quoted key, then the quoted hexadecimal value.
pub open spec fn dump_line(k: Seq<char>, v: Seq<u8>) -> Seq<char> {
    "\""@ + k + "\" = \""@ + hex_lower(v) + "\"\n"@
}

/// The dump of a list of entries, one line each.
pub open spec fn dump_lines(entries: Seq<(Seq<char>, Seq<u8>)>) -> Seq<char>
    decreases entries.len(),
{
    if entries.len() == 0 {
        Seq::empty()
    } else {
        dump_lines(entries.drop_last()) + dump_line(entries.last().0, entries.last().1)
    }
}

/// The dump of the subspace as reconstructed at a past height: one line
/// per live key that held a value then.
pub open spec fn dump_restored_lines(
    entries: Seq<(Seq<char>, Seq<u8>)>,
    diffs: Map<Seq<char>, Seq<u8>>,
    sub: Map<Seq<char>, Seq<u8>>,
    height: u64,
    last: u64,
) -> Seq<char>
    decreases entries.len(),
{
    if entries.len() == 0 {
        Seq::empty()
    } else {
        let rest = dump_restored_lines(entries.drop_last(), diffs, sub, height, last);
        let k = entries.last().0;
        match read_with_height_spec(diffs, sub, k, height as nat, last as nat) {
            Some(v) => rest + dump_line(k, v),
            None => rest,
        }
    }
}

impl RocksDB {
    /// Dumps every entry of one family under a prefix, one line per
    /// entry, in key order.
    fn dump_prefix(&self, fam: DbColFam, prefix: &str) -> (out: String)
        requires
            self.wf(),
        ensures
            out@ == dump_lines(
                self.spec_cf(fam).entry_seq().filter(prefix_pred(prefix@)),
            ),
    {
        let ghost f = self.spec_cf(fam).entry_seq().filter(prefix_pred(prefix@));
        let cf: &Cf = self.cf(fam);
        let entries = cf.prefix_entries(prefix);
        let mut out = String::new();
        let n = entries.len();
        let mut i: usize = 0;
        proof {
            assert(dump_lines(f.take(0)) =~= Seq::<char>::empty());
        }
        while i < n
            invariant
                i <= n,
                n == entries@.len(),
                f.len() == n,
                forall|j: int|
                    0 <= j < n ==> ((#[trigger] entries@[j]).0@, entries@[j].1@) == f[j],
                out@ == dump_lines(f.take(i as int)),
            decreases n - i,
        {
            proof {
                assert(f.take(i + 1).drop_last() =~= f.take(i as int));
                assert(f.take(i + 1).last() == f[i as int]);
            }
            out.append("\"");
            out.append(entries[i].0.as_str());
            out.append("\" = \"");
            out.append(hex_encode(&entries[i].1).as_str());
            out.append("\"\n");
            i = i + 1;
        }
        proof {
            assert(f.take(n as int) =~= f);
        }
        out
    }

    /// Dumps the subspace as it stood at `height`, reconstructing each
    /// live key's value through the historic read.
    fn dump_restored_subspace(&self, height: u64, last_height: u64) -> (out: String)
        requires
            self.wf(),
            height < u64::MAX,
        ensures
            out@ == dump_restored_lines(
                self.spec_cf(DbColFam::Subspace).entry_seq().filter(prefix_pred(Seq::empty())),
                self@.diffs,
                self@.subspace,
                height,
                last_height,
            ),
    {
        let ghost f = self.spec_cf(DbColFam::Subspace).entry_seq().filter(
            prefix_pred(Seq::empty()),
        );
        let empty_prefix = String::new();
        let entries = self.cf(DbColFam::Subspace).prefix_entries(empty_prefix.as_str());
        let mut out = String::new();
        let n = entries.len();
        let mut i: usize = 0;
        proof {
            assert(dump_restored_lines(f.take(0), self@.diffs, self@.subspace, height, last_height)
                =~= Seq::<char>::empty());
        }
        while i < n
            invariant
                i <= n,
                n == entries@.len(),
                f.len() == n,
                forall|j: int|
                    0 <= j < n ==> ((#[trigger] entries@[j]).0@, entries@[j].1@) == f[j],
                out@ == dump_restored_lines(
                    f.take(i as int),
                    self@.diffs,
                    self@.subspace,
                    height,
                    last_height,
                ),
                self.wf(),
                height < u64::MAX,
                f == self.spec_cf(DbColFam::Subspace).entry_seq().filter(
                    prefix_pred(Seq::empty()),
                ),
            decreases n - i,
        {
            proof {
                assert(f.take(i + 1).drop_last() =~= f.take(i as int));
                assert(f.take(i + 1).last() == f[i as int]);
            }
            match self.read_with_height_str(entries[i].0.as_str(), height, last_height) {
                Some(v) => {
                    proof {
                        assert(read_with_height_spec(
                            self@.diffs,
                            self@.subspace,
                            entries@[i as int].0@,
                            height as nat,
                            last_height as nat,
                        ) == Some(v@));
                    }
                    out.append("\"");
                    out.append(entries[i].0.as_str());
                    out.append("\" = \"");
                    out.append(hex_encode(&v).as_str());
                    out.append("\"\n");
                },
                None => {
                    proof {
                        assert(read_with_height_spec(
                            self@.diffs,
                            self@.subspace,
                            entries@[i as int].0@,
                            height as nat,
                            last_height as nat,
                        ) is None);
                    }
                },
            }
            i = i + 1;
        }
        proof {
            assert(f.take(n as int) =~= f);
        }
        out
    }

    /// Renders the dump of the block at `height` — the last one when no
    /// height is given: the height-prefixed diffs and block entries when
    /// `historic` is asked for, the subspace as of that height, and the
    /// replay-protection window the height still covers.
    pub fn dump_block_string(&self, historic: bool, height: Option<u64>) -> (r: Result<
        String,
        Error,
    >)
        requires
            self.wf(),
        ensures
            match r {
                Ok(s) => exists|last: u64|
                    {
                        &&& map_get(self@.state, "height"@) == Some(
                            #[trigger] crate::codec::enc_u64(last),
                        )
                        &&& (height matches Some(d) ==> s@ == dump_spec(*self, historic, d, last))
                        &&& (height is None ==> s@ == dump_spec(*self, historic, last, last))
                    },
                Err(e) => e is Io || e is Coding,
            },
            // the dump is owed on a store with a recorded height, whenever
            // the requested height is reconstructible
            forall|last: u64|
                (self@.state.contains_key("height"@) && self@.state["height"@]
                    == #[trigger] crate::codec::enc_u64(last) && (match height {
                    Some(d) => d == last || d < u64::MAX,
                    None => true,
                })) ==> r is Ok,
    {
        let last_bytes = match self.read_value_bytes(DbColFam::State, "height") {
            Some(b) => b,
            None => {
                return Err(Error::Io("no block height found".to_owned()));
            },
        };
        let last_height = match crate::codec::decode_u64(last_bytes.as_slice()) {
            Ok(h) => h,
            Err(e) => {
                proof {
                    assert(self@.state["height"@] == last_bytes@);
                    assert forall|h: u64|
                        self@.state["height"@] != #[trigger] crate::codec::enc_u64(h) by {
                        crate::codec::lemma_enc_u64_decodable(h);
                    }
                }
                return Err(e);
            },
        };
        proof {
            assert forall|h: u64|
                self@.state["height"@] == #[trigger] crate::codec::enc_u64(h) implies h
                == last_height by {
                assert(self@.state["height"@] == last_bytes@);
                crate::codec::lemma_roundtrip_u64(h, last_height);
            }
        }
        let h = match height {
            Some(d) => d,
            None => last_height,
        };
        let mut out = String::new();
        let mut height_pfx = crate::strings::u64_to_string(h);
        height_pfx.append("/");
        if historic {
            out.append(self.dump_prefix(DbColFam::Diffs, height_pfx.as_str()).as_str());
            out.append(self.dump_prefix(DbColFam::Block, height_pfx.as_str()).as_str());
        }
        let empty_prefix = String::new();
        if h == last_height {
            out.append(self.dump_prefix(DbColFam::Subspace, empty_prefix.as_str()).as_str());
        } else {
            if h == u64::MAX {
                // a height above every committed block reconstructs nothing
                proof {
                    assert(h != last_height);
                }
                return Err(Error::Io("cannot reconstruct at this height".to_owned()));
            }
            out.append(self.dump_restored_subspace(h, last_height).as_str());
        }
        if h == last_height {
            out.append(self.dump_prefix(DbColFam::ReplayProt, empty_prefix.as_str()).as_str());
        } else if last_height > 0 && h == last_height - 1 {
            out.append(self.dump_prefix(DbColFam::ReplayProt, "all/").as_str());
        }
        Ok(out)
    }
}

/// The full dump of the store at one height: the historic sections when
/// asked for, the subspace — live or reconstructed — and the applicable
/// replay-protection window.
pub open spec fn dump_spec(db: RocksDB, historic: bool, h: u64, last: u64) -> Seq<char>
    recommends
        h == last || h < u64::MAX,
{
    let height_pfx = dec_str(h as nat) + "/"@;
    (if historic {
        dump_lines(db.spec_cf(DbColFam::Diffs).entry_seq().filter(prefix_pred(height_pfx)))
            + dump_lines(db.spec_cf(DbColFam::Block).entry_seq().filter(prefix_pred(height_pfx)))
    } else {
        Seq::empty()
    }) + (if h == last {
        dump_lines(db.spec_cf(DbColFam::Subspace).entry_seq().filter(prefix_pred(Seq::empty())))
    } else {
        dump_restored_lines(
            db.spec_cf(DbColFam::Subspace).entry_seq().filter(prefix_pred(Seq::empty())),
            db@.diffs,
            db@.subspace,
            h,
            last,
        )
    }) + (if h == last {
        dump_lines(
            db.spec_cf(DbColFam::ReplayProt).entry_seq().filter(prefix_pred(Seq::empty())),
        )
    } else if last > 0 && h == last - 1 {
        dump_lines(db.spec_cf(DbColFam::ReplayProt).entry_seq().filter(prefix_pred("all/"@)))
    } else {
        Seq::empty()
    })
}

} // verus!
